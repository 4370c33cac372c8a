use vstd::prelude::*;
use vstd::string::StringSliceAdditionalSpecFns;

use crate::blob::FIELD_ELEMENTS_PER_BLOB;
use crate::settings::{BYTES_PER_G1, BYTES_PER_G2};

verus! {

/// G2 points of a setup.
pub const TRUSTED_SETUP_NUM_G2_POINTS: usize = 65;

/// Length of the header `"4096\n65\n"`.
pub const HEADER_LEN: usize = 8;

/// Where the G2 lines start: after the header and the G1 lines of 97 bytes.
pub const G2_START: usize = 397320;

/// Length of a whole setup text.
pub const SETUP_TEXT_LEN: usize = 409865;

/// Why a setup text was refused.
#[derive(Clone, Copy, Debug, PartialEq, Eq)]
pub enum SetupError {
    /// The text does not have the shape of a setup with 4096 G1 and 65 G2 points.
    Malformed,
}

/// The header: the two point counts, each on its own line.
pub open spec fn header() -> Seq<u8> {
    seq![52u8, 48u8, 57u8, 54u8, 10u8, 54u8, 53u8, 10u8]
}

/// `c` is a hexadecimal digit, in either case.
pub open spec fn is_hex(c: u8) -> bool {
    (48 <= c <= 57) || (97 <= c <= 102) || (65 <= c <= 70)
}

/// The value of the hexadecimal digit `c`.
pub open spec fn hex_val(c: u8) -> u8 {
    if 48 <= c <= 57 {
        (c - 48) as u8
    } else if 97 <= c <= 102 {
        (c - 87) as u8
    } else {
        (c - 55) as u8
    }
}

/// The lower-case hexadecimal digit of `d < 16`.
pub open spec fn hex_digit(d: u8) -> u8 {
    if d < 10 {
        (d + 48) as u8
    } else {
        (d + 87) as u8
    }
}

/// A line of `b.len()` bytes: two hexadecimal digits per byte, then a newline.
pub open spec fn hex_line(b: Seq<u8>) -> Seq<u8> {
    Seq::new(
        2 * b.len() + 1,
        |p: int|
            if p == 2 * b.len() {
                10u8
            } else if p % 2 == 0 {
                hex_digit(b[p / 2] / 16)
            } else {
                hex_digit(b[p / 2] % 16)
            },
    )
}

/// The bytes that the line `l` holds, `width` of them: `None` unless it has
/// `2 * width` hexadecimal digits followed by a newline.
pub open spec fn parse_line(l: Seq<u8>, width: nat) -> Option<Seq<u8>> {
    if l.len() == 2 * width + 1 && l[2 * width as int] == 10 && forall|p: int|
        0 <= p < 2 * width ==> #[trigger] is_hex(l[p]) {
        Some(Seq::new(width, |j: int| (hex_val(l[2 * j]) * 16 + hex_val(l[2 * j + 1])) as u8))
    } else {
        None
    }
}

/// The bytes that `count` lines of `width` bytes each hold, one after another.
pub open spec fn parse_lines(b: Seq<u8>, width: nat, count: nat) -> Option<Seq<u8>>
    decreases count,
{
    if b.len() != count * (2 * width + 1) {
        None
    } else if count == 0 {
        Some(Seq::empty())
    } else {
        let cut = (count - 1) * (2 * width + 1);
        match (parse_lines(b.take(cut), width, (count - 1) as nat), parse_line(b.skip(cut), width)) {
            (Some(x), Some(y)) => Some(x + y),
            _ => None,
        }
    }
}

/// `count` lines, line `i` holding bytes `width * i` to `width * (i + 1)` of `b`.
pub open spec fn render_lines(b: Seq<u8>, width: nat, count: nat) -> Seq<u8>
    decreases count,
{
    if count == 0 {
        Seq::empty()
    } else {
        render_lines(b, width, (count - 1) as nat) + hex_line(
            b.subrange(width * (count - 1), (width * count) as int),
        )
    }
}

/// The G1 and G2 bytes of a setup text: the header, 4096 lines of 48 bytes, and
/// 65 lines of 96 bytes.
pub open spec fn parse_setup(b: Seq<u8>) -> Option<(Seq<u8>, Seq<u8>)> {
    if b.len() != SETUP_TEXT_LEN || b.take(HEADER_LEN as int) != header() {
        None
    } else {
        match (
            parse_lines(b.subrange(HEADER_LEN as int, G2_START as int), 48, 4096),
            parse_lines(b.skip(G2_START as int), 96, 65),
        ) {
            (Some(g1), Some(g2)) => Some((g1, g2)),
            _ => None,
        }
    }
}

/// The setup text of the G1 bytes `g1` and the G2 bytes `g2`.
pub open spec fn render_setup(g1: Seq<u8>, g2: Seq<u8>) -> Seq<u8> {
    header() + render_lines(g1, 48, 4096) + render_lines(g2, 96, 65)
}

/// A line that `parse_lines` accepts as a whole has each of its lines accepted.
proof fn lemma_parse_lines_each(b: Seq<u8>, width: nat, count: nat, i: nat)
    requires
        parse_lines(b, width, count) is Some,
        i < count,
    ensures
        i * (2 * width + 1) + (2 * width + 1) <= b.len(),
        parse_line(
            b.subrange((i * (2 * width + 1)) as int, (i * (2 * width + 1) + (2 * width + 1)) as int),
            width,
        ) is Some,
    decreases count,
{
    let l: int = (2 * width + 1) as int;
    let cut: int = (count - 1) * l;
    assert(cut == count * l - l) by (nonlinear_arith)
        requires
            cut == (count - 1) * l,
            count >= 1,
    ;
    assert(i * l + l <= count * l) by (nonlinear_arith)
        requires
            i < count,
            l >= 0,
    ;
    if i + 1 == count {
        assert(b.skip(cut) =~= b.subrange(i * l, i * l + l));
    } else {
        lemma_parse_lines_each(b.take(cut), width, (count - 1) as nat, i);
        assert(b.take(cut).subrange(i * l, i * l + l) =~= b.subrange(i * l, i * l + l));
    }
}

/// The value of the hexadecimal digit `c`, if it is one.
fn hex_value(c: u8) -> (r: Option<u8>)
    ensures
        r is Some <==> is_hex(c),
        r is Some ==> r == Some(hex_val(c)),
{
    if 48 <= c && c <= 57 {
        Some(c - 48)
    } else if 97 <= c && c <= 102 {
        Some(c - 87)
    } else if 65 <= c && c <= 70 {
        Some(c - 55)
    } else {
        None
    }
}

/// Reads the line of `width` bytes that starts at `start` in `b`.
fn read_line(b: &[u8], start: usize, width: usize) -> (r: Option<Vec<u8>>)
    requires
        start + 2 * width + 1 <= b@.len(),
    ensures
        match r {
            Some(v) => parse_line(b@.subrange(start as int, start + 2 * width + 1), width as nat)
                == Some(v@),
            None => parse_line(b@.subrange(start as int, start + 2 * width + 1), width as nat) is None,
        },
{
    let ghost l = b@.subrange(start as int, start + 2 * width + 1);
    let n = b.len();
    let mut out: Vec<u8> = Vec::with_capacity(width);
    let mut j: usize = 0;
    while j < width
        invariant
            n == b@.len(),
            start + 2 * width + 1 <= b@.len(),
            l == b@.subrange(start as int, start + 2 * width + 1),
            j <= width,
            forall|p: int| 0 <= p < 2 * j ==> #[trigger] is_hex(l[p]),
            out@ =~= Seq::new(j as nat, |q: int| (hex_val(l[2 * q]) * 16 + hex_val(l[2 * q + 1])) as u8),
        decreases width - j,
    {
        let hi = match hex_value(b[start + 2 * j]) {
            Some(v) => v,
            None => {
                assert(!is_hex(l[2 * j as int]));
                return None;
            },
        };
        let lo = match hex_value(b[start + 2 * j + 1]) {
            Some(v) => v,
            None => {
                assert(!is_hex(l[2 * j + 1]));
                return None;
            },
        };
        out.push(hi * 16 + lo);
        j = j + 1;
    }
    if b[start + 2 * width] != 10 {
        return None;
    }
    Some(out)
}

/// Reads `count` lines of `width` bytes each, the first starting at `start`.
fn read_lines(b: &[u8], start: usize, width: usize, count: usize) -> (r: Option<Vec<u8>>)
    requires
        start + count * (2 * width + 1) <= b@.len(),
    ensures
        match r {
            Some(v) => parse_lines(
                b@.subrange(start as int, start + count * (2 * width + 1)),
                width as nat,
                count as nat,
            ) == Some(v@),
            None => parse_lines(
                b@.subrange(start as int, start + count * (2 * width + 1)),
                width as nat,
                count as nat,
            ) is None,
        },
{
    let ghost whole = b@.subrange(start as int, start + count * (2 * width + 1));
    let n = b.len();
    if count == 0 {
        assert(whole =~= Seq::<u8>::empty());
        return Some(Vec::new());
    }
    assert(2 * width + 1 <= count * (2 * width + 1)) by (nonlinear_arith)
        requires
            count >= 1,
    ;
    let line_len = 2 * width + 1;
    let mut out: Vec<u8> = Vec::new();
    let mut i: usize = 0;
    assert(b@.subrange(start as int, start as int) =~= Seq::<u8>::empty());
    while i < count
        invariant
            n == b@.len(),
            line_len == 2 * width + 1,
            start + count * line_len <= b@.len(),
            whole == b@.subrange(start as int, start + count * line_len),
            i <= count,
            parse_lines(b@.subrange(start as int, start + i * line_len), width as nat, i as nat)
                == Some(out@),
        decreases count - i,
    {
        assert(i * line_len + line_len <= count * line_len) by (nonlinear_arith)
            requires
                i < count,
        ;
        assert(i * line_len <= count * line_len) by (nonlinear_arith)
            requires
                i <= count,
        ;
        assert((i + 1) * line_len == i * line_len + line_len) by (nonlinear_arith);
        let line_start = start + i * line_len;
        let ghost prefix = b@.subrange(start as int, start + (i + 1) * line_len);
        assert(prefix.take(i * line_len) =~= b@.subrange(start as int, start + i * line_len));
        assert(prefix.skip(i * line_len) =~= b@.subrange(
            line_start as int,
            line_start + 2 * width + 1,
        ));
        match read_line(b, line_start, width) {
            Some(v) => {
                out.append(&mut v.clone());
                proof {
                    assert(parse_lines(prefix, width as nat, (i + 1) as nat) == Some(out@));
                }
            },
            None => {
                proof {
                    if parse_lines(whole, width as nat, count as nat) is Some {
                        lemma_parse_lines_each(whole, width as nat, count as nat, i as nat);
                        assert(whole.subrange(i * line_len, i * line_len + line_len)
                            =~= b@.subrange(line_start as int, line_start + 2 * width + 1));
                    }
                }
                return None;
            },
        }
        i = i + 1;
    }
    Some(out)
}

/// The lower-case hexadecimal digit of `d < 16`.
fn hex_char(d: u8) -> (r: u8)
    requires
        d < 16,
    ensures
        r == hex_digit(d),
{
    if d < 10 {
        d + 48
    } else {
        d + 87
    }
}

/// Appends `count` lines of `width` bytes of `b` each to `out`.
fn write_lines(out: &mut Vec<u8>, b: &Vec<u8>, width: usize, count: usize)
    requires
        b@.len() == width * count,
    ensures
        final(out)@ == old(out)@ + render_lines(b@, width as nat, count as nat),
{
    let ghost start = out@;
    let n = b.len();
    let mut i: usize = 0;
    while i < count
        invariant
            n == b@.len(),
            b@.len() == width * count,
            i <= count,
            out@ == start + render_lines(b@, width as nat, i as nat),
        decreases count - i,
    {
        assert(width * i + width <= width * count) by (nonlinear_arith)
            requires
                i < count,
        ;
        assert(width * (i + 1) == width * i + width) by (nonlinear_arith);
        let ghost line = b@.subrange(width * i, width * i + width);
        let ghost before = out@;
        let mut j: usize = 0;
        while j < width
            invariant
                n == b@.len(),
                b@.len() == width * count,
                width * i + width <= width * count,
                line == b@.subrange(width * i, width * i + width),
                j <= width,
                out@ == before + hex_line(line).take(2 * j),
            decreases width - j,
        {
            let x = b[width * i + j];
            out.push(hex_char(x / 16));
            out.push(hex_char(x % 16));
            j = j + 1;
            assert(out@ =~= before + hex_line(line).take(2 * j));
        }
        out.push(10);
        assert(out@ =~= before + hex_line(line));
        i = i + 1;
        assert(render_lines(b@, width as nat, i as nat) == render_lines(
            b@,
            width as nat,
            (i - 1) as nat,
        ) + hex_line(line));
        assert(out@ =~= start + render_lines(b@, width as nat, i as nat));
    }
}

/// The setup text of the G1 bytes `g1` and the G2 bytes `g2`, as bytes.
pub fn trusted_setup_text(g1: &Vec<u8>, g2: &Vec<u8>) -> (r: Vec<u8>)
    requires
        g1@.len() == 4096 * 48,
        g2@.len() == 65 * 96,
    ensures
        r@ == render_setup(g1@, g2@),
{
    let mut out: Vec<u8> = Vec::new();
    out.push(52);
    out.push(48);
    out.push(57);
    out.push(54);
    out.push(10);
    out.push(54);
    out.push(53);
    out.push(10);
    assert(out@ =~= header());
    write_lines(&mut out, g1, BYTES_PER_G1, FIELD_ELEMENTS_PER_BLOB);
    write_lines(&mut out, g2, BYTES_PER_G2, TRUSTED_SETUP_NUM_G2_POINTS);
    out
}

proof fn lemma_hex_digit(d: u8)
    requires
        d < 16,
    ensures
        is_hex(hex_digit(d)),
        hex_val(hex_digit(d)) == d,
{
}

proof fn lemma_parse_hex_line(b: Seq<u8>)
    ensures
        parse_line(hex_line(b), b.len()) == Some(b),
{
    let l = hex_line(b);
    let w = b.len();
    assert forall|p: int| 0 <= p < 2 * w implies #[trigger] is_hex(l[p]) by {
        lemma_hex_digit(b[p / 2] / 16);
        lemma_hex_digit(b[p / 2] % 16);
    }
    let v = Seq::new(w, |j: int| (hex_val(l[2 * j]) * 16 + hex_val(l[2 * j + 1])) as u8);
    assert forall|j: int| 0 <= j < w implies v[j] == b[j] by {
        lemma_hex_digit(b[j] / 16);
        lemma_hex_digit(b[j] % 16);
        assert((2 * j) / 2 == j);
        assert((2 * j + 1) / 2 == j);
    }
    assert(v =~= b);
}

proof fn lemma_render_lines_len(b: Seq<u8>, width: nat, count: nat)
    requires
        b.len() >= width * count,
    ensures
        render_lines(b, width, count).len() == count * (2 * width + 1),
    decreases count,
{
    if count > 0 {
        assert(width * (count - 1) <= width * count) by (nonlinear_arith);
        lemma_render_lines_len(b, width, (count - 1) as nat);
        assert((count - 1) * (2 * width + 1) + 2 * width + 1 == count * (2 * width + 1))
            by (nonlinear_arith);
        assert(width * count - width * (count - 1) == width) by (nonlinear_arith);
        let line = b.subrange(width * (count - 1), (width * count) as int);
        assert(line.len() == width);
        assert(hex_line(line).len() == 2 * width + 1);
        assert(render_lines(b, width, count) == render_lines(b, width, (count - 1) as nat)
            + hex_line(line));
    } else {
        assert(count * (2 * width + 1) == 0) by (nonlinear_arith)
            requires
                count == 0,
        ;
    }
}

#[verifier::rlimit(60)]
proof fn lemma_parse_render_lines(b: Seq<u8>, width: nat, count: nat)
    requires
        b.len() >= width * count,
    ensures
        parse_lines(render_lines(b, width, count), width, count) == Some(b.take((width * count) as int)),
    decreases count,
{
    lemma_render_lines_len(b, width, count);
    if count == 0 {
        assert(width * count == 0) by (nonlinear_arith)
            requires
                count == 0,
        ;
        assert(b.take(0) =~= Seq::<u8>::empty());
    } else {
        let r = render_lines(b, width, count);
        let prev = render_lines(b, width, (count - 1) as nat);
        assert(width * (count - 1) <= width * count) by (nonlinear_arith);
        assert(width * count - width * (count - 1) == width) by (nonlinear_arith);
        lemma_render_lines_len(b, width, (count - 1) as nat);
        lemma_parse_render_lines(b, width, (count - 1) as nat);
        let line = b.subrange(width * (count - 1), (width * count) as int);
        assert(line.len() == width);
        let cut = (count - 1) * (2 * width + 1);
        assert(r == prev + hex_line(line));
        assert(prev.len() == cut);
        assert(r.take(cut) =~= prev);
        assert(r.skip(cut) =~= hex_line(line));
        lemma_parse_hex_line(line);
        assert(parse_line(r.skip(cut), width) == Some(line));
        assert(parse_lines(r.take(cut), width, (count - 1) as nat) == Some(
            b.take(width * (count - 1)),
        ));
        assert(b.take(width * (count - 1)) + line =~= b.take((width * count) as int));
    }
}

/// Writing the G1 and G2 bytes of a setup as text and reading the text back
/// gives the same bytes.
pub proof fn lemma_setup_text_round_trip(g1: Seq<u8>, g2: Seq<u8>)
    requires
        g1.len() == 4096 * 48,
        g2.len() == 65 * 96,
    ensures
        parse_setup(render_setup(g1, g2)) == Some((g1, g2)),
{
    let r1 = render_lines(g1, 48, 4096);
    let r2 = render_lines(g2, 96, 65);
    let t = render_setup(g1, g2);
    lemma_render_lines_len(g1, 48, 4096);
    lemma_render_lines_len(g2, 96, 65);
    lemma_parse_render_lines(g1, 48, 4096);
    lemma_parse_render_lines(g2, 96, 65);
    assert(t.take(HEADER_LEN as int) =~= header());
    assert(t.subrange(HEADER_LEN as int, G2_START as int) =~= r1);
    assert(t.skip(G2_START as int) =~= r2);
    assert(g1.take(48 * 4096int) =~= g1);
    assert(g2.take(96 * 65int) =~= g2);
}

/// Reading a setup text, writing what was read as text and reading that again
/// gives what the first reading gave.
pub proof fn lemma_setup_parse_render_parse(text: Seq<u8>)
    requires
        parse_setup(text) is Some,
    ensures
        parse_setup(text) matches Some((g1, g2)) && parse_setup(render_setup(g1, g2)) == Some(
            (g1, g2),
        ),
{
    let (g1, g2) = parse_setup(text)->0;
    lemma_parse_lines_len(text.subrange(HEADER_LEN as int, G2_START as int), 48, 4096);
    lemma_parse_lines_len(text.skip(G2_START as int), 96, 65);
    lemma_setup_text_round_trip(g1, g2);
}

/// A setup text holds 4096 G1 points of 48 bytes and 65 G2 points of 96 bytes.
pub proof fn lemma_parse_setup_lens(text: Seq<u8>)
    ensures
        parse_setup(text) matches Some((g1, g2)) ==> g1.len() == 4096 * 48 && g2.len() == 65 * 96,
{
    if parse_setup(text) is Some {
        lemma_parse_lines_len(text.subrange(HEADER_LEN as int, G2_START as int), 48, 4096);
        lemma_parse_lines_len(text.skip(G2_START as int), 96, 65);
    }
}

/// What `parse_lines` returns holds `width` bytes per line.
proof fn lemma_parse_lines_len(b: Seq<u8>, width: nat, count: nat)
    requires
        parse_lines(b, width, count) is Some,
    ensures
        parse_lines(b, width, count)->0.len() == width * count,
    decreases count,
{
    if count > 0 {
        let cut = (count - 1) * (2 * width + 1);
        lemma_parse_lines_len(b.take(cut), width, (count - 1) as nat);
        assert(width * (count - 1) + width == width * count) by (nonlinear_arith);
        let x = parse_lines(b.take(cut), width, (count - 1) as nat)->0;
        let y = parse_line(b.skip(cut), width)->0;
        assert(parse_lines(b, width, count)->0 == x + y);
        assert(y.len() == width);
    } else {
        assert(width * count == 0) by (nonlinear_arith)
            requires
                count == 0,
        ;
    }
}

/// Reads a setup text: the G1 bytes and the G2 bytes that its lines hold.
pub fn parse_setup_bytes(b: &[u8]) -> (r: Result<(Vec<u8>, Vec<u8>), SetupError>)
    ensures
        match r {
            Ok((g1, g2)) => parse_setup(b@) == Some((g1@, g2@)),
            Err(_) => parse_setup(b@) is None,
        },
{
    if b.len() != SETUP_TEXT_LEN {
        return Err(SetupError::Malformed);
    }
    let mut k: usize = 0;
    while k < HEADER_LEN
        invariant
            b@.len() == SETUP_TEXT_LEN,
            k <= HEADER_LEN,
            forall|q: int| 0 <= q < k ==> b@[q] == header()[q],
        decreases HEADER_LEN - k,
    {
        let expected: u8 = if k == 0 {
            52
        } else if k == 1 {
            48
        } else if k == 2 {
            57
        } else if k == 3 || k == 5 {
            54
        } else if k == 6 {
            53
        } else {
            10
        };
        if b[k] != expected {
            assert(b@.take(HEADER_LEN as int)[k as int] != header()[k as int]);
            return Err(SetupError::Malformed);
        }
        k = k + 1;
    }
    assert(b@.take(HEADER_LEN as int) =~= header());
    let g1 = match read_lines(b, HEADER_LEN, BYTES_PER_G1, FIELD_ELEMENTS_PER_BLOB) {
        Some(v) => v,
        None => {
            return Err(SetupError::Malformed);
        },
    };
    assert(b@.subrange(G2_START as int, G2_START + 65 * (2 * 96 + 1)) =~= b@.skip(
        G2_START as int,
    ));
    let g2 = match read_lines(b, G2_START, BYTES_PER_G2, TRUSTED_SETUP_NUM_G2_POINTS) {
        Some(v) => v,
        None => {
            return Err(SetupError::Malformed);
        },
    };
    Ok((g1, g2))
}

/// Reads a setup text: the G1 bytes and the G2 bytes that its lines hold.
pub fn load_trusted_setup_string(contents: &str) -> (r: Result<(Vec<u8>, Vec<u8>), SetupError>)
    ensures
        match r {
            Ok((g1, g2)) => parse_setup(contents.spec_bytes()) == Some((g1@, g2@)),
            Err(_) => parse_setup(contents.spec_bytes()) is None,
        },
{
    parse_setup_bytes(contents.as_bytes())
}

} // verus!
