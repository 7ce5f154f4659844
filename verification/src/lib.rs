//! Format-controlled hexadecimal output.
//!
//! A [`HexFmt`] borrows a byte buffer and renders it as hexadecimal text,
//! two zero-padded digits per byte, with optional line wrapping (a row width
//! in bytes) and optional sub-grouping (a group width in bytes, groups
//! separated by a space). A width of zero disables the corresponding
//! separator. Row breaks take priority over group breaks and also reset the
//! group counter.
use vstd::prelude::*;
use vstd::arithmetic::div_mod::{
    lemma_fundamental_div_mod, lemma_mod_bound, lemma_mod_multiples_basic,
    lemma_mod_multiples_vanish, lemma_small_mod,
};

verus! {

/// The hexadecimal digit character for a nibble value, in the chosen case.
pub open spec fn hex_digit(nib: u8, uppercase: bool) -> char {
    if nib < 10 {
        (nib + 0x30) as u8 as char
    } else if uppercase {
        (nib + 0x37) as u8 as char
    } else {
        (nib + 0x57) as u8 as char
    }
}

/// The two-digit, zero-padded rendering of one byte.
pub open spec fn hex_pair(b: u8, uppercase: bool) -> Seq<char> {
    seq![hex_digit(b / 16, uppercase), hex_digit(b % 16, uppercase)]
}

/// The rendering of `bytes[i..]`, given the running counters: `in_row` bytes
/// emitted since the last row break (or the start) and `in_group` bytes
/// emitted since the last row or group break (or the start). After each byte
/// except the last, a newline is emitted when the row fills (resetting both
/// counters), else a space when the group fills (resetting the group counter).
pub open spec fn render_from(
    bytes: Seq<u8>,
    i: int,
    in_row: int,
    in_group: int,
    row_width: int,
    group_width: int,
    uppercase: bool,
) -> Seq<char>
    decreases bytes.len() - i,
    when 0 <= i
{
    if i >= bytes.len() {
        Seq::empty()
    } else {
        let digits = hex_pair(bytes[i], uppercase);
        if i + 1 < bytes.len() {
            if row_width > 0 && in_row + 1 == row_width {
                digits + seq!['\n'] + render_from(bytes, i + 1, 0, 0, row_width, group_width, uppercase)
            } else if group_width > 0 && in_group + 1 == group_width {
                digits + seq![' '] + render_from(bytes, i + 1, in_row + 1, 0, row_width, group_width, uppercase)
            } else {
                digits + render_from(bytes, i + 1, in_row + 1, in_group + 1, row_width, group_width, uppercase)
            }
        } else {
            digits
        }
    }
}

/// The full rendering of a byte sequence under the two layout directives.
pub open spec fn render(bytes: Seq<u8>, row_width: int, group_width: int, uppercase: bool) -> Seq<char> {
    render_from(bytes, 0, 0, 0, row_width, group_width, uppercase)
}

/// The flat concatenation of the two-digit pairs of all bytes, in order.
pub open spec fn hex_pairs(bytes: Seq<u8>, uppercase: bool) -> Seq<char>
    decreases bytes.len(),
{
    if bytes.len() == 0 {
        Seq::empty()
    } else {
        hex_pair(bytes[0], uppercase) + hex_pairs(bytes.drop_first(), uppercase)
    }
}

proof fn lemma_render_from_flat(bytes: Seq<u8>, i: int, in_row: int, in_group: int, uppercase: bool)
    requires
        0 <= i <= bytes.len(),
    ensures
        render_from(bytes, i, in_row, in_group, 0, 0, uppercase) == hex_pairs(bytes.skip(i), uppercase),
    decreases bytes.len() - i,
{
    if i < bytes.len() {
        lemma_render_from_flat(bytes, i + 1, in_row + 1, in_group + 1, uppercase);
        assert(bytes.skip(i).drop_first() =~= bytes.skip(i + 1));
        assert(render_from(bytes, i, in_row, in_group, 0, 0, uppercase)
            =~= hex_pairs(bytes.skip(i), uppercase));
    }
}

proof fn lemma_hex_pairs_len(bytes: Seq<u8>, uppercase: bool)
    ensures
        hex_pairs(bytes, uppercase).len() == 2 * bytes.len(),
    decreases bytes.len(),
{
    if bytes.len() > 0 {
        lemma_hex_pairs_len(bytes.drop_first(), uppercase);
    }
}

/// Law: with wrapping and grouping both disabled, the rendering is exactly the
/// concatenation of the two-digit, zero-padded pairs in input order, so its
/// length is twice the number of bytes.
pub proof fn lemma_render_flat(bytes: Seq<u8>, uppercase: bool)
    ensures
        render(bytes, 0, 0, uppercase) == hex_pairs(bytes, uppercase),
        render(bytes, 0, 0, uppercase).len() == 2 * bytes.len(),
{
    lemma_render_from_flat(bytes, 0, 0, 0, uppercase);
    assert(bytes.skip(0) =~= bytes);
    lemma_hex_pairs_len(bytes, uppercase);
}

/// Law: empty input renders to empty output, in either case and under every
/// combination of layout directives.
pub proof fn lemma_render_empty(row_width: int, group_width: int, uppercase: bool)
    ensures
        render(Seq::<u8>::empty(), row_width, group_width, uppercase) == Seq::<char>::empty(),
{
}

/// Uppercases the six lowercase hexadecimal letter digits, leaving every
/// other character (decimal digits, separators) unchanged.
pub open spec fn upper_char(c: char) -> char {
    if c == 'a' {
        'A'
    } else if c == 'b' {
        'B'
    } else if c == 'c' {
        'C'
    } else if c == 'd' {
        'D'
    } else if c == 'e' {
        'E'
    } else if c == 'f' {
        'F'
    } else {
        c
    }
}

/// `s` with each lowercase hexadecimal letter digit uppercased.
pub open spec fn uppercased(s: Seq<char>) -> Seq<char> {
    s.map_values(|c: char| upper_char(c))
}

proof fn lemma_hex_pair_case(b: u8)
    ensures
        hex_pair(b, true) == uppercased(hex_pair(b, false)),
{
    assert(b / 16 < 16 && b % 16 < 16);
    assert(hex_pair(b, true) =~= uppercased(hex_pair(b, false)));
}

proof fn lemma_render_from_case(
    bytes: Seq<u8>,
    i: int,
    in_row: int,
    in_group: int,
    row_width: int,
    group_width: int,
)
    requires
        0 <= i <= bytes.len(),
    ensures
        render_from(bytes, i, in_row, in_group, row_width, group_width, true)
            == uppercased(render_from(bytes, i, in_row, in_group, row_width, group_width, false)),
    decreases bytes.len() - i,
{
    if i < bytes.len() {
        lemma_hex_pair_case(bytes[i]);
        if i + 1 < bytes.len() {
            if row_width > 0 && in_row + 1 == row_width {
                lemma_render_from_case(bytes, i + 1, 0, 0, row_width, group_width);
            } else if group_width > 0 && in_group + 1 == group_width {
                lemma_render_from_case(bytes, i + 1, in_row + 1, 0, row_width, group_width);
            } else {
                lemma_render_from_case(bytes, i + 1, in_row + 1, in_group + 1, row_width, group_width);
            }
        }
        assert(render_from(bytes, i, in_row, in_group, row_width, group_width, true)
            =~= uppercased(render_from(bytes, i, in_row, in_group, row_width, group_width, false)));
    } else {
        assert(render_from(bytes, i, in_row, in_group, row_width, group_width, true)
            =~= uppercased(render_from(bytes, i, in_row, in_group, row_width, group_width, false)));
    }
}

/// Law: the uppercase rendering equals the lowercase rendering with every
/// letter digit uppercased; all separators are identical in position.
pub proof fn lemma_render_case(bytes: Seq<u8>, row_width: int, group_width: int)
    ensures
        render(bytes, row_width, group_width, true)
            == uppercased(render(bytes, row_width, group_width, false)),
{
    lemma_render_from_case(bytes, 0, 0, 0, row_width, group_width);
}

/// The byte offset of position `i` within its row: `i` itself when wrapping
/// is disabled, else the remainder of `i` by the row width.
pub open spec fn offset_in_row(i: int, row_width: int) -> int {
    if row_width > 0 {
        i % row_width
    } else {
        i
    }
}

/// Whether a line break stands after the byte at position `i`: wrapping is
/// enabled, the byte is not the last, and it completes a row.
pub open spec fn row_break_after(i: int, len: int, row_width: int) -> bool {
    row_width > 0 && i + 1 < len && (i + 1) % row_width == 0
}

/// Whether a space stands after the byte at position `i`: no line break
/// stands there, grouping is enabled, the byte is not the last, and it
/// completes a group counted from the start of its row. Groups restart at
/// every row break, so counting from the row start is counting from the
/// last row-or-group break.
pub open spec fn group_break_after(i: int, len: int, row_width: int, group_width: int) -> bool {
    &&& !row_break_after(i, len, row_width)
    &&& group_width > 0
    &&& i + 1 < len
    &&& (offset_in_row(i, row_width) + 1) % group_width == 0
}

/// The rendering of `bytes[i..]` described positionally: each byte's pair of
/// digits, followed by the separator that its position calls for.
pub open spec fn render_pos_from(
    bytes: Seq<u8>,
    i: int,
    row_width: int,
    group_width: int,
    uppercase: bool,
) -> Seq<char>
    decreases bytes.len() - i,
    when 0 <= i
{
    if i >= bytes.len() {
        Seq::empty()
    } else {
        let digits = hex_pair(bytes[i], uppercase);
        let sep = if row_break_after(i, bytes.len() as int, row_width) {
            seq!['\n']
        } else if group_break_after(i, bytes.len() as int, row_width, group_width) {
            seq![' ']
        } else {
            Seq::<char>::empty()
        };
        digits + sep + render_pos_from(bytes, i + 1, row_width, group_width, uppercase)
    }
}

proof fn lemma_mod_succ(x: int, d: int)
    requires
        0 <= x,
        0 < d,
    ensures
        (x + 1) % d == if x % d + 1 == d {
            0int
        } else {
            x % d + 1
        },
{
    lemma_mod_bound(x, d);
    lemma_fundamental_div_mod(x, d);
    if x % d + 1 == d {
        lemma_mod_multiples_basic(x / d + 1, d);
        assert((x / d + 1) * d == d * (x / d) + d) by (nonlinear_arith);
    } else {
        lemma_mod_multiples_vanish(x / d, x % d + 1, d);
        lemma_small_mod((x % d + 1) as nat, d as nat);
    }
}

proof fn lemma_render_from_pos(
    bytes: Seq<u8>,
    i: int,
    in_row: int,
    in_group: int,
    row_width: int,
    group_width: int,
    uppercase: bool,
)
    requires
        0 <= i <= bytes.len(),
        row_width > 0 ==> in_row == i % row_width,
        group_width > 0 ==> in_group == offset_in_row(i, row_width) % group_width,
    ensures
        render_from(bytes, i, in_row, in_group, row_width, group_width, uppercase)
            == render_pos_from(bytes, i, row_width, group_width, uppercase),
    decreases bytes.len() - i,
{
    if i < bytes.len() {
        let len = bytes.len() as int;
        let off = offset_in_row(i, row_width);
        if row_width > 0 {
            lemma_mod_bound(i, row_width);
            lemma_mod_succ(i, row_width);
        }
        if group_width > 0 {
            lemma_mod_bound(off, group_width);
            lemma_mod_succ(off, group_width);
            lemma_small_mod(0nat, group_width as nat);
        }
        if i + 1 < len {
            if row_width > 0 && in_row + 1 == row_width {
                assert(row_break_after(i, len, row_width));
                lemma_render_from_pos(bytes, i + 1, 0, 0, row_width, group_width, uppercase);
            } else if group_width > 0 && in_group + 1 == group_width {
                assert(group_break_after(i, len, row_width, group_width));
                lemma_render_from_pos(
                    bytes, i + 1, in_row + 1, 0, row_width, group_width, uppercase,
                );
            } else {
                assert(!row_break_after(i, len, row_width));
                assert(!group_break_after(i, len, row_width, group_width));
                lemma_render_from_pos(
                    bytes, i + 1, in_row + 1, in_group + 1, row_width, group_width, uppercase,
                );
            }
        } else {
            assert(render_pos_from(bytes, i + 1, row_width, group_width, uppercase)
                =~= Seq::<char>::empty());
        }
        assert(render_from(bytes, i, in_row, in_group, row_width, group_width, uppercase)
            =~= render_pos_from(bytes, i, row_width, group_width, uppercase));
    }
}

/// Law: a line break stands exactly after every `row_width`-th byte except
/// the final byte; a space stands exactly after every `group_width`-th byte
/// since the last row-or-group break, except the final byte; a position
/// where both fall together gets only the line break.
pub proof fn lemma_render_positional(
    bytes: Seq<u8>,
    row_width: int,
    group_width: int,
    uppercase: bool,
)
    ensures
        render(bytes, row_width, group_width, uppercase)
            == render_pos_from(bytes, 0, row_width, group_width, uppercase),
{
    if row_width > 0 {
        lemma_small_mod(0nat, row_width as nat);
    }
    if group_width > 0 {
        lemma_small_mod(0nat, group_width as nat);
    }
    lemma_render_from_pos(bytes, 0, 0, 0, row_width, group_width, uppercase);
}

/// A borrowed view of a byte buffer that renders as hexadecimal text.
pub struct HexFmt<'a> {
    bytes: &'a [u8],
}

impl<'a> View for HexFmt<'a> {
    type V = Seq<u8>;

    closed spec fn view(&self) -> Seq<u8> {
        self.bytes@
    }
}

/// Wraps a byte buffer for hexadecimal rendering, without copying it.
pub fn hex<'a>(bytes: &'a [u8]) -> (r: HexFmt<'a>)
    ensures
        r@ == bytes@,
{
    HexFmt { bytes }
}

/// The hexadecimal digit character for a nibble value, in the chosen case.
fn digit_char(nib: u8, uppercase: bool) -> (c: char)
    requires
        nib < 16,
    ensures
        c == hex_digit(nib, uppercase),
{
    if nib < 10 {
        (nib + 0x30) as char
    } else if uppercase {
        (nib + 0x37) as char
    } else {
        (nib + 0x57) as char
    }
}

/// Relies on `String::push`: appends one character at the end of the string.
#[verifier::external_body]
fn push_char(s: &mut String, c: char)
    ensures
        final(s)@ == old(s)@.push(c),
{
    s.push(c);
}

impl<'a> HexFmt<'a> {
    /// Renders the bytes as hexadecimal text. A `row_width` of zero disables
    /// line wrapping; a `group_width` of zero disables grouping.
    pub fn fmt(&self, row_width: usize, group_width: usize, uppercase: bool) -> (r: String)
        ensures
            r@ == render(self@, row_width as int, group_width as int, uppercase),
    {
        let n = self.bytes.len();
        let mut out = String::new();
        let mut in_row: usize = 0;
        let mut in_group: usize = 0;
        let mut i: usize = 0;
        while i < n
            invariant
                n == self@.len(),
                i <= n,
                in_row <= i,
                in_group <= i,
                out@ + render_from(self@, i as int, in_row as int, in_group as int,
                    row_width as int, group_width as int, uppercase)
                    == render(self@, row_width as int, group_width as int, uppercase),
            decreases n - i,
        {
            let b = self.bytes[i];
            let ghost prev = out@;
            push_char(&mut out, digit_char(b / 16, uppercase));
            push_char(&mut out, digit_char(b % 16, uppercase));
            assert(out@ =~= prev + hex_pair(b, uppercase));
            if i + 1 < n {
                if row_width > 0 && in_row + 1 == row_width {
                    push_char(&mut out, '\n');
                    assert(out@ =~= prev + (hex_pair(b, uppercase) + seq!['\n']));
                    in_row = 0;
                    in_group = 0;
                } else if group_width > 0 && in_group + 1 == group_width {
                    push_char(&mut out, ' ');
                    assert(out@ =~= prev + (hex_pair(b, uppercase) + seq![' ']));
                    in_row = in_row + 1;
                    in_group = 0;
                } else {
                    in_row = in_row + 1;
                    in_group = in_group + 1;
                }
            }
            i = i + 1;
            assert(out@ + render_from(self@, i as int, in_row as int, in_group as int,
                row_width as int, group_width as int, uppercase)
                =~= render(self@, row_width as int, group_width as int, uppercase));
        }
        out
    }

    /// Renders with the lowercase digit alphabet.
    pub fn lower_hex(&self, row_width: usize, group_width: usize) -> (r: String)
        ensures
            r@ == render(self@, row_width as int, group_width as int, false),
    {
        self.fmt(row_width, group_width, false)
    }

    /// Renders with the uppercase digit alphabet.
    pub fn upper_hex(&self, row_width: usize, group_width: usize) -> (r: String)
        ensures
            r@ == render(self@, row_width as int, group_width as int, true),
    {
        self.fmt(row_width, group_width, true)
    }
}

impl<'a> From<&'a [u8]> for HexFmt<'a> {
    fn from(bytes: &'a [u8]) -> (r: Self)
        ensures
            r@ == bytes@,
    {
        HexFmt { bytes }
    }
}

impl<'a> vstd::std_specs::convert::FromSpecImpl<&'a [u8]> for HexFmt<'a> {
    closed spec fn obeys_from_spec() -> bool {
        true
    }

    closed spec fn from_spec(bytes: &'a [u8]) -> Self {
        HexFmt { bytes }
    }
}

} // verus!
