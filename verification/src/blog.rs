//! The blog: rendering a post's source text to HTML, decoding what the
//! edit form sends, and the edit form itself.
use vstd::prelude::*;
use vstd::slice::{slice_subrange, slice_to_vec};
use crate::bytes::push_all;

verus! {

/// What `asciitohex` gives for a byte.
pub open spec fn hex_value(x: u8) -> u8 {
    if x < 0x40 {
        x ^ 0x30u8
    } else {
        ((x & 15u8) + 9) as u8
    }
}

/// The value of a hexadecimal digit: `x ^ 0x30` below `0x40` (the
/// decimal digits), else its low four bits plus nine (`A`..`F` and
/// `a`..`f`). Other bytes give what the same arithmetic gives.
pub fn asciitohex(x: u8) -> (r: u8)
    ensures
        r == hex_value(x),
{
    if x < 0x40 {
        x ^ 0x30
    } else {
        assert(x & 15u8 <= 15) by (bit_vector);
        (x & 15) + 9
    }
}

/// A hexadecimal digit gives its value: `0`..`9` give 0..9, and `A`..`F`
/// and `a`..`f` give 10..15.
pub proof fn lemma_hex_digits(x: u8)
    ensures
        0x30 <= x <= 0x39 ==> hex_value(x) == x - 0x30,
        0x41 <= x <= 0x46 ==> hex_value(x) == x - 0x41 + 10,
        0x61 <= x <= 0x66 ==> hex_value(x) == x - 0x61 + 10,
{
    assert(0x30 <= x <= 0x39 ==> (x ^ 0x30u8) == x - 0x30) by (bit_vector);
    assert(0x41 <= x <= 0x46 ==> (x & 15u8) + 9 == x - 0x41 + 10) by (bit_vector);
    assert(0x61 <= x <= 0x66 ==> (x & 15u8) + 9 == x - 0x61 + 10) by (bit_vector);
}

/// The byte that the escape `%ab` stands for.
pub open spec fn escaped_byte(a: u8, b: u8) -> u8 {
    (hex_value(a) << 4u8) | hex_value(b)
}

/// An escape of two hexadecimal digits stands for the byte they spell.
pub proof fn lemma_escape_value(a: u8, b: u8)
    requires
        hex_value(a) < 16,
        hex_value(b) < 16,
    ensures
        escaped_byte(a, b) == hex_value(a) * 16 + hex_value(b),
{
    let x = hex_value(a);
    let y = hex_value(b);
    assert(x < 16 && y < 16 ==> (x << 4u8) | y == x * 16 + y) by (bit_vector);
}

/// The form data `d` decoded from index `i` on: `%ab` is the byte that
/// `ab` spells (dropped where it is a carriage return), `+` is a space,
/// and any other byte stands for itself. A `%` with fewer than two bytes
/// after it stands for itself.
pub open spec fn decode_from(d: Seq<u8>, i: int) -> Seq<u8>
    decreases d.len() - i,
{
    if i < 0 || i >= d.len() {
        seq![]
    } else if i + 2 < d.len() && d[i] == 0x25 {
        let c = escaped_byte(d[i + 1], d[i + 2]);
        (if c != 13 {
            seq![c]
        } else {
            seq![]
        }) + decode_from(d, i + 3)
    } else {
        seq![if d[i] == 0x2b { 0x20u8 } else { d[i] }] + decode_from(d, i + 1)
    }
}

/// Text without `%` and `+` decodes to itself.
pub proof fn lemma_plain_text_decodes(d: Seq<u8>, i: int)
    requires
        0 <= i,
        forall|k: int| i <= k < d.len() ==> d[k] != 0x25 && d[k] != 0x2b,
    ensures
        decode_from(d, i) == (if i < d.len() { d.subrange(i, d.len() as int) } else { seq![] }),
    decreases d.len() - i,
{
    if i < d.len() {
        lemma_plain_text_decodes(d, i + 1);
        assert(seq![d[i]] + (if i + 1 < d.len() { d.subrange(i + 1, d.len() as int) } else { seq![] })
            =~= d.subrange(i, d.len() as int));
    }
}

/// The text that the edit form posts: the form data after the field's
/// name and `=` (the first seven bytes, `gerald=`), decoded.
pub open spec fn posted_text(d: Seq<u8>) -> Seq<u8> {
    decode_from(d, 7)
}

/// `c` is an ASCII letter or digit.
pub open spec fn is_alnum(c: u8) -> bool {
    (48 <= c <= 57) || (65 <= c <= 90) || (97 <= c <= 122)
}

/// The hexadecimal digit for a value below sixteen, in upper or lower case.
pub open spec fn hex_digit(d: u8, upper: bool) -> u8 {
    if d < 10 {
        (48 + d) as u8
    } else if upper {
        (55 + d) as u8
    } else {
        (87 + d) as u8
    }
}

/// How a form encodes a byte: a space as `+`, a letter or digit as
/// itself, anything else as `%` and its two hexadecimal digits.
pub open spec fn form_byte(c: u8, upper: bool) -> Seq<u8> {
    if c == 0x20 {
        seq![0x2bu8]
    } else if is_alnum(c) {
        seq![c]
    } else {
        seq![0x25u8, hex_digit(c >> 4u8, upper), hex_digit(c & 15u8, upper)]
    }
}

/// The form encoding of a text, byte by byte.
pub open spec fn form_encode(s: Seq<u8>, upper: bool) -> Seq<u8>
    decreases s.len(),
{
    if s.len() == 0 {
        seq![]
    } else {
        form_byte(s[0], upper) + form_encode(s.drop_first(), upper)
    }
}

/// A text with its carriage returns taken out.
pub open spec fn without_cr(s: Seq<u8>) -> Seq<u8>
    decreases s.len(),
{
    if s.len() == 0 {
        seq![]
    } else {
        (if s[0] == 13 {
            seq![]
        } else {
            seq![s[0]]
        }) + without_cr(s.drop_first())
    }
}

proof fn lemma_escape_of_byte(c: u8, upper: bool)
    ensures
        escaped_byte(hex_digit(c >> 4u8, upper), hex_digit(c & 15u8, upper)) == c,
{
    let hi = c >> 4u8;
    let lo = c & 15u8;
    assert((c >> 4u8) < 16 && (c & 15u8) < 16) by (bit_vector);
    assert(hex_value(hex_digit(hi, upper)) == hi) by {
        let x = hex_digit(hi, upper);
        assert(hi < 10 ==> ((48 + hi) as u8) < 0x40 && ((48 + hi) as u8 ^ 0x30u8) == hi) by (bit_vector)
            requires hi < 16;
        assert(10 <= hi < 16 ==> ((55 + hi) as u8) >= 0x40 && ((((55 + hi) as u8) & 15u8) + 9) as u8
            == hi) by (bit_vector);
        assert(10 <= hi < 16 ==> ((87 + hi) as u8) >= 0x40 && ((((87 + hi) as u8) & 15u8) + 9) as u8
            == hi) by (bit_vector);
    }
    assert(hex_value(hex_digit(lo, upper)) == lo) by {
        assert(lo < 10 ==> ((48 + lo) as u8) < 0x40 && ((48 + lo) as u8 ^ 0x30u8) == lo) by (bit_vector)
            requires lo < 16;
        assert(10 <= lo < 16 ==> ((55 + lo) as u8) >= 0x40 && ((((55 + lo) as u8) & 15u8) + 9) as u8
            == lo) by (bit_vector);
        assert(10 <= lo < 16 ==> ((87 + lo) as u8) >= 0x40 && ((((87 + lo) as u8) & 15u8) + 9) as u8
            == lo) by (bit_vector);
    }
    assert(((c >> 4u8) << 4u8) | (c & 15u8) == c) by (bit_vector);
}

proof fn lemma_decode_encoded(d: Seq<u8>, i: int, s: Seq<u8>, upper: bool)
    requires
        0 <= i <= d.len(),
        d.subrange(i, d.len() as int) == form_encode(s, upper),
    ensures
        decode_from(d, i) == without_cr(s),
    decreases s.len(),
{
    if s.len() == 0 {
        assert(d.subrange(i, d.len() as int).len() == 0);
    } else {
        let c = s[0];
        let rest = s.drop_first();
        let b = form_byte(c, upper);
        let k = b.len() as int;
        let e = form_encode(s, upper);
        assert(e == b + form_encode(rest, upper));
        assert(d[i] == b[0]) by {
            assert(d.subrange(i, d.len() as int)[0] == d[i]);
            assert(e[0] == b[0]);
        }
        if k == 3 {
            assert(d[i + 1] == b[1]) by {
                assert(d.subrange(i, d.len() as int)[1] == d[i + 1]);
                assert(e[1] == b[1]);
            }
            assert(d[i + 2] == b[2]) by {
                assert(d.subrange(i, d.len() as int)[2] == d[i + 2]);
                assert(e[2] == b[2]);
            }
        }
        assert(d.subrange(i + k, d.len() as int) =~= form_encode(rest, upper)) by {
            assert forall|j: int| 0 <= j < d.len() - (i + k) implies d.subrange(i + k, d.len() as int)[j]
                == form_encode(rest, upper)[j] by {
                assert(d.subrange(i, d.len() as int)[k + j] == d[i + k + j]);
                assert(e[k + j] == form_encode(rest, upper)[j]);
            }
        }
        lemma_decode_encoded(d, i + k, rest, upper);
        if c == 0x20 {
            assert(d[i] == 0x2b);
        } else if is_alnum(c) {
            assert(d[i] == c);
        } else {
            assert(d[i] == 0x25);
            lemma_escape_of_byte(c, upper);
            assert(escaped_byte(d[i + 1], d[i + 2]) == c);
        }
    }
}

/// Decoding what the edit form sends gives the text back, without its
/// carriage returns: where the form data is a field name of seven bytes
/// (`gerald=`) followed by the form encoding of `s` (with hexadecimal
/// digits in either case), the posted text is `s` with every carriage
/// return removed and every other byte kept, in order.
pub proof fn lemma_form_roundtrip(name: Seq<u8>, s: Seq<u8>, upper: bool)
    requires
        name.len() == 7,
    ensures
        posted_text(name + form_encode(s, upper)) == without_cr(s),
{
    let d = name + form_encode(s, upper);
    assert(d.subrange(7, d.len() as int) =~= form_encode(s, upper));
    lemma_decode_encoded(d, 7, s, upper);
}

/// Decodes the body of the edit form's request to the post's new source.
pub fn decode_form(data: &[u8]) -> (r: Vec<u8>)
    ensures
        r@ == posted_text(data@),
{
    let mut nd: Vec<u8> = Vec::new();
    let mut i: usize = 7;
    assert(nd@ + decode_from(data@, 7) =~= decode_from(data@, 7));
    while i < data.len()
        invariant
            7 <= i,
            nd@ + decode_from(data@, i as int) == posted_text(data@),
        decreases data.len() - i,
    {
        let ghost before = nd@;
        if data.len() - i > 2 && data[i] == 0x25 {
            let mut c = asciitohex(data[i + 1]) << 4;
            c = c | asciitohex(data[i + 2]);
            assert(c == escaped_byte(data@[i + 1], data@[i + 2]));
            if c != 13 {
                nd.push(c);
            }
            assert(before + ((if c != 13 { seq![c] } else { Seq::<u8>::empty() }) + decode_from(data@, i + 3))
                =~= nd@ + decode_from(data@, i + 3));
            i += 3;
        } else {
            nd.push(if data[i] == 0x2b { 0x20 } else { data[i] });
            assert(before + (seq![if data@[i as int] == 0x2b { 0x20u8 } else { data@[i as int] }]
                + decode_from(data@, i + 1)) =~= nd@ + decode_from(data@, i + 1));
            i += 1;
        }
    }
    assert(nd@ + Seq::<u8>::empty() =~= nd@);
    nd
}

/// A piece of a rendered post: HTML to write as it is, or the source of a
/// formula to typeset.
#[derive(Clone, Debug, PartialEq, Eq)]
pub enum Block {
    Html(Vec<u8>),
    Math(Vec<u8>),
}

/// A `Block` as plain values.
pub enum BlockView {
    Html(Seq<u8>),
    Math(Seq<u8>),
}

impl View for Block {
    type V = BlockView;

    open spec fn view(&self) -> BlockView {
        match self {
            Block::Html(h) => BlockView::Html(h@),
            Block::Math(m) => BlockView::Math(m@),
        }
    }
}

/// The views of a list of blocks.
pub open spec fn block_views(bs: Seq<Block>) -> Seq<BlockView> {
    bs.map_values(|b: Block| b@)
}

/// `b` is longer than two bytes and starts with `x y z`.
pub open spec fn starts3(b: Seq<u8>, x: u8, y: u8, z: u8) -> bool {
    b.len() > 2 && b[0] == x && b[1] == y && b[2] == z
}

/// The first index from `from` on that holds a control byte (below
/// `0x20`), or the length of `b`.
pub open spec fn ctrl_from(b: Seq<u8>, from: int) -> int
    decreases b.len() - from,
{
    if from >= b.len() {
        b.len() as int
    } else if b[from] < 0x20 {
        from
    } else {
        ctrl_from(b, from + 1)
    }
}

/// Text with each newline turned into `<br/>`.
pub open spec fn br_text(s: Seq<u8>) -> Seq<u8>
    decreases s.len(),
{
    if s.len() == 0 {
        seq![]
    } else {
        br_text(s.drop_last()) + (if s.last() == 10 {
            seq![60u8, 98, 114, 47, 62]
        } else {
            seq![s.last()]
        })
    }
}

/// How a paragraph of a post's source is rendered. A paragraph that
/// starts with the line `mt` is a formula; `ln` starts a link, whose
/// address runs to the first control byte and whose label is the rest (or
/// the address where there is no rest); `--` alone is a rule; `im` starts
/// an image, whose address runs to the first control byte and whose
/// description is what follows that byte; anything else is a paragraph of
/// text whose line breaks are kept.
pub open spec fn render(b: Seq<u8>) -> BlockView {
    let n = b.len() as int;
    if starts3(b, 0x6d, 0x74, 0x0a) {
        BlockView::Math(b.subrange(3, n))
    } else if starts3(b, 0x6c, 0x6e, 0x0a) {
        let j = ctrl_from(b, 3);
        BlockView::Html(
            seq![60u8, 112, 62, 60, 97, 32, 104, 114, 101, 102, 61, 34] + b.subrange(3, j) + seq![34u8, 62] + (if j != n {
                b.subrange(j, n)
            } else {
                b.subrange(3, j)
            }) + seq![60u8, 47, 97, 62, 60, 47, 112, 62],
        )
    } else if n == 2 && b[0] == 0x2d && b[1] == 0x2d {
        BlockView::Html(seq![60u8, 104, 114, 47, 62])
    } else if starts3(b, 0x69, 0x6d, 0x0a) {
        let j = ctrl_from(b, 3);
        BlockView::Html(
            seq![60u8, 105, 109, 103, 32, 115, 114, 99, 61, 34] + b.subrange(3, j) + (if j != n {
                seq![34u8, 32, 97, 108, 116, 61, 34] + b.subrange(j + 1, n) + seq![34u8, 32, 116, 105, 116, 108, 101, 61, 34] + b.subrange(j + 1, n)
            } else {
                seq![]
            }) + seq![34u8, 47, 62],
        )
    } else {
        BlockView::Html(seq![60u8, 112, 62] + br_text(b) + seq![60u8, 47, 112, 62])
    }
}

/// The first index from `from` on whose byte is below `0x20`, or `b.len()`.
fn ctrl_from_exec(b: &[u8], from: usize) -> (j: usize)
    requires
        from <= b.len(),
    ensures
        j == ctrl_from(b@, from as int),
        from <= j <= b.len(),
{
    let mut j: usize = from;
    while j < b.len() && b[j] >= 0x20
        invariant
            from <= j <= b.len(),
            ctrl_from(b@, from as int) == ctrl_from(b@, j as int),
        decreases b.len() - j,
    {
        j += 1;
    }
    j
}

/// Renders one paragraph of a post's source, as `render` says.
pub fn parse_write(buf: &[u8]) -> (r: Block)
    ensures
        r@ == render(buf@),
{
    let n = buf.len();
    if n > 2 && buf[0] == 0x6d && buf[1] == 0x74 && buf[2] == 0x0a {
        return Block::Math(slice_to_vec(slice_subrange(buf, 3, n)));
    }
    let mut out: Vec<u8> = Vec::new();
    if n > 2 && buf[0] == 0x6c && buf[1] == 0x6e && buf[2] == 0x0a {
        let j = ctrl_from_exec(buf, 3);
        push_all(&mut out, &[60u8, 112, 62, 60, 97, 32, 104, 114, 101, 102, 61, 34]);
        push_all(&mut out, slice_subrange(buf, 3, j));
        push_all(&mut out, &[34u8, 62]);
        if j != n {
            push_all(&mut out, slice_subrange(buf, j, n));
        } else {
            push_all(&mut out, slice_subrange(buf, 3, j));
        }
        push_all(&mut out, &[60u8, 47, 97, 62, 60, 47, 112, 62]);
        assert(out@ =~= seq![60u8, 112, 62, 60, 97, 32, 104, 114, 101, 102, 61, 34] + buf@.subrange(3, j as int) + seq![34u8, 62] + (if j != n {
            buf@.subrange(j as int, n as int)
        } else {
            buf@.subrange(3, j as int)
        }) + seq![60u8, 47, 97, 62, 60, 47, 112, 62]);
    } else if n == 2 && buf[0] == 0x2d && buf[1] == 0x2d {
        push_all(&mut out, &[60u8, 104, 114, 47, 62]);
        assert(out@ =~= seq![60u8, 104, 114, 47, 62]);
    } else if n > 2 && buf[0] == 0x69 && buf[1] == 0x6d && buf[2] == 0x0a {
        let j = ctrl_from_exec(buf, 3);
        push_all(&mut out, &[60u8, 105, 109, 103, 32, 115, 114, 99, 61, 34]);
        push_all(&mut out, slice_subrange(buf, 3, j));
        let ghost mid = out@;
        if j != n {
            push_all(&mut out, &[34u8, 32, 97, 108, 116, 61, 34]);
            push_all(&mut out, slice_subrange(buf, j + 1, n));
            push_all(&mut out, &[34u8, 32, 116, 105, 116, 108, 101, 61, 34]);
            push_all(&mut out, slice_subrange(buf, j + 1, n));
            assert(out@ =~= mid + (seq![34u8, 32, 97, 108, 116, 61, 34] + buf@.subrange(j + 1, n as int) + seq![34u8, 32, 116, 105, 116, 108, 101, 61, 34]
                + buf@.subrange(j + 1, n as int)));
        } else {
            assert(out@ =~= mid + Seq::<u8>::empty());
        }
        push_all(&mut out, &[34u8, 47, 62]);
        assert(out@ =~= seq![60u8, 105, 109, 103, 32, 115, 114, 99, 61, 34] + buf@.subrange(3, j as int) + (if j != n {
            seq![34u8, 32, 97, 108, 116, 61, 34] + buf@.subrange(j + 1, n as int) + seq![34u8, 32, 116, 105, 116, 108, 101, 61, 34] + buf@.subrange(
                j + 1,
                n as int,
            )
        } else {
            seq![]
        }) + seq![34u8, 47, 62]);
    } else {
        push_all(&mut out, &[60u8, 112, 62]);
        let mut i: usize = 0;
        while i < n
            invariant
                n == buf@.len(),
                i <= n,
                out@ == seq![60u8, 112, 62] + br_text(buf@.subrange(0, i as int)),
            decreases n - i,
        {
            if buf[i] == 10 {
                push_all(&mut out, &[60u8, 98, 114, 47, 62]);
            } else {
                out.push(buf[i]);
            }
            proof {
                assert(buf@.subrange(0, i + 1).drop_last() =~= buf@.subrange(0, i as int));
                assert(buf@.subrange(0, i + 1).last() == buf@[i as int]);
                assert(out@ =~= seq![60u8, 112, 62] + br_text(buf@.subrange(0, i + 1)));
            }
            i += 1;
        }
        push_all(&mut out, &[60u8, 47, 112, 62]);
        assert(buf@.subrange(0, n as int) =~= buf@);
        assert(out@ =~= seq![60u8, 112, 62] + br_text(buf@) + seq![60u8, 47, 112, 62]);
    }
    Block::Html(out)
}

/// The first index from `i` on whose byte is not blank (above `0x20`),
/// or `i` where `i` is past the end.
pub open spec fn skip_blank(b: Seq<u8>, i: int) -> int
    decreases b.len() - i,
{
    if i >= b.len() {
        i
    } else if b[i] > 0x20 {
        i
    } else {
        skip_blank(b, i + 1)
    }
}

/// Where a paragraph that is at least two bytes long ends: the first
/// index from `j` on that starts an empty line (`\n\n`), or the last
/// index of `b`.
pub open spec fn para_end(b: Seq<u8>, j: int) -> int
    decreases b.len() - j,
{
    if j >= b.len() - 1 {
        j
    } else if b[j] == 10 && b[j + 1] == 10 {
        j
    } else {
        para_end(b, j + 1)
    }
}

pub proof fn lemma_skip_blank(b: Seq<u8>, i: int)
    requires
        0 <= i,
    ensures
        i <= skip_blank(b, i),
        i <= b.len() ==> skip_blank(b, i) <= b.len(),
        skip_blank(b, i) < b.len() ==> b[skip_blank(b, i)] > 0x20,
    decreases b.len() - i,
{
    if i < b.len() && b[i] <= 0x20 {
        lemma_skip_blank(b, i + 1);
    }
}

pub proof fn lemma_para_end(b: Seq<u8>, j: int)
    ensures
        j <= para_end(b, j),
        j < b.len() - 1 ==> para_end(b, j) <= b.len() - 1,
        j >= b.len() - 1 ==> para_end(b, j) == j,
    decreases b.len() - j,
{
    if j < b.len() - 1 && !(b[j] == 10 && b[j + 1] == 10) {
        lemma_para_end(b, j + 1);
    }
}

/// The rendered paragraphs of `b` from `i` on. Blank bytes before a
/// paragraph are skipped; a paragraph then runs for at least two bytes,
/// up to the next empty line.
pub open spec fn rendered_from(b: Seq<u8>, i: int) -> Seq<BlockView>
    decreases b.len() + 2 - i,
{
    if i < 0 {
        seq![]
    } else {
        let s = skip_blank(b, i);
        if s >= b.len() {
            seq![]
        } else {
            let e = para_end(b, s + 2);
            proof {
                lemma_skip_blank(b, i);
                lemma_para_end(b, s + 2);
            }
            seq![render(b.subrange(s, e))] + rendered_from(b, e)
        }
    }
}

/// The link to a post's edit form, which heads the post's page.
pub open spec fn edit_link(slug: Seq<u8>) -> Seq<u8> {
    seq![60u8, 112, 62, 60, 97, 32, 104, 114, 101, 102, 61, 34, 47, 101, 100, 105, 116, 47] + slug + seq![34u8, 62, 101, 100, 105, 116, 60, 47, 97, 62, 60, 47, 112, 62]
}

/// A post's page between the site's head and foot templates: the link to
/// its edit form, then its rendered paragraphs. The source gets a final
/// newline before it is read.
pub open spec fn blog_page(slug: Seq<u8>, src: Seq<u8>) -> Seq<BlockView> {
    seq![BlockView::Html(edit_link(slug))] + rendered_from(src.push(10), 0)
}

/// Renders a post: the blocks of its page between the head and foot
/// templates, as `blog_page` says.
pub fn blog_blocks(slug: &[u8], src: &[u8]) -> (r: Vec<Block>)
    ensures
        block_views(r@) == blog_page(slug@, src@),
{
    let mut buf = slice_to_vec(src);
    buf.push(10);
    let ghost b = buf@;
    let n = buf.len();
    let mut head: Vec<u8> = Vec::new();
    push_all(&mut head, &[60u8, 112, 62, 60, 97, 32, 104, 114, 101, 102, 61, 34, 47, 101, 100, 105, 116, 47]);
    push_all(&mut head, slug);
    push_all(&mut head, &[34u8, 62, 101, 100, 105, 116, 60, 47, 97, 62, 60, 47, 112, 62]);
    assert(head@ =~= edit_link(slug@));
    let mut out: Vec<Block> = Vec::new();
    out.push(Block::Html(head));
    assert(block_views(out@) =~= seq![BlockView::Html(edit_link(slug@))]);
    let mut i: usize = 0;
    loop
        invariant
            b == buf@,
            b == src@.push(10),
            n == b.len(),
            i <= n,
            block_views(out@) + rendered_from(b, i as int) == blog_page(slug@, src@),
        decreases n + 2 - i,
    {
        let ghost i0 = i as int;
        while i < n && buf[i] <= 0x20
            invariant
                b == buf@,
                n == b.len(),
                i0 <= i <= n,
                skip_blank(b, i0) == skip_blank(b, i as int),
            decreases n - i,
        {
            i += 1;
        }
        if i >= n {
            assert(rendered_from(b, i0) =~= Seq::<BlockView>::empty());
            assert(block_views(out@) + Seq::<BlockView>::empty() =~= block_views(out@));
            return out;
        }
        // The source ends with a newline, so a paragraph start leaves room
        // for two bytes.
        assert(b[n - 1] == 10);
        let mut j: usize = i + 2;
        while j < n - 1 && (buf[j] != 10 || buf[j + 1] != 10)
            invariant
                b == buf@,
                n == b.len(),
                i + 2 <= j <= n,
                para_end(b, (i + 2) as int) == para_end(b, j as int),
            decreases n - j,
        {
            j += 1;
        }
        proof {
            lemma_para_end(b, (i + 2) as int);
        }
        let blk = parse_write(slice_subrange(buf.as_slice(), i, j));
        let ghost before = block_views(out@);
        out.push(blk);
        proof {
            assert(block_views(out@) =~= before + seq![render(b.subrange(i as int, j as int))]);
            assert(before + (seq![render(b.subrange(i as int, j as int))] + rendered_from(b, j as int))
                =~= block_views(out@) + rendered_from(b, j as int));
        }
        i = j;
    }
}

/// The edit form for a post: it posts to the post's address, and its text
/// area holds the post's current source (empty for a new post).
pub open spec fn edit_form_text(slug: Seq<u8>, text: Seq<u8>) -> Seq<u8> {
    seq![60u8, 102, 111, 114, 109, 32, 97, 99, 116, 105, 111, 110, 61, 34, 47, 98, 108, 111, 103, 47] + slug + seq![34u8, 32, 109, 101, 116, 104, 111, 100, 61, 34, 80, 79, 83, 84, 34, 62, 60, 116, 101, 120, 116, 97, 114, 101, 97, 32, 110, 97, 109, 101, 61, 34, 103, 101, 114, 97, 108, 100, 34, 62] + text
        + seq![60u8, 47, 116, 101, 120, 116, 97, 114, 101, 97, 62, 60, 105, 110, 112, 117, 116, 32, 116, 121, 112, 101, 61, 34, 115, 117, 98, 109, 105, 116, 34, 62, 60, 47, 102, 111, 114, 109, 62]
}

/// The edit form for the post `slug` whose source is `text`, to stand
/// between the site's head and foot templates.
pub fn edit_form(slug: &[u8], text: &[u8]) -> (r: Vec<u8>)
    ensures
        r@ == edit_form_text(slug@, text@),
{
    let mut out: Vec<u8> = Vec::new();
    push_all(&mut out, &[60u8, 102, 111, 114, 109, 32, 97, 99, 116, 105, 111, 110, 61, 34, 47, 98, 108, 111, 103, 47]);
    push_all(&mut out, slug);
    push_all(&mut out, &[34u8, 32, 109, 101, 116, 104, 111, 100, 61, 34, 80, 79, 83, 84, 34, 62, 60, 116, 101, 120, 116, 97, 114, 101, 97, 32, 110, 97, 109, 101, 61, 34, 103, 101, 114, 97, 108, 100, 34, 62]);
    push_all(&mut out, text);
    push_all(&mut out, &[60u8, 47, 116, 101, 120, 116, 97, 114, 101, 97, 62, 60, 105, 110, 112, 117, 116, 32, 116, 121, 112, 101, 61, 34, 115, 117, 98, 109, 105, 116, 34, 62, 60, 47, 102, 111, 114, 109, 62]);
    assert(out@ =~= edit_form_text(slug@, text@));
    out
}


/// The edit form holds the post's source in full: between the text
/// area's opening tag and its closing tag stand exactly the bytes of the
/// source, control bytes and newlines included; the form posts to the
/// post's address.
pub proof fn lemma_form_holds_source(slug: Seq<u8>, text: Seq<u8>)
    ensures
        ({
            let f = edit_form_text(slug, text);
            let o = slug.len() + 60int;
            let n = slug.len() as int;
            let m = text.len() as int;
            &&& f.len() == o + text.len() + 39
            &&& f.subrange(0, 20) == seq![60u8, 102, 111, 114, 109, 32, 97, 99, 116, 105, 111, 110, 61, 34, 47, 98, 108, 111, 103, 47]
            &&& f.subrange(20, 20 + n) == slug
            &&& f.subrange(20 + n, o) == seq![34u8, 32, 109, 101, 116, 104, 111, 100, 61, 34, 80, 79, 83, 84, 34, 62, 60, 116, 101, 120, 116, 97, 114, 101, 97, 32, 110, 97, 109, 101, 61, 34, 103, 101, 114, 97, 108, 100, 34, 62]
            &&& f.subrange(o, o + m) == text
            &&& f.subrange(o + m, f.len() as int) == seq![60u8, 47, 116, 101, 120, 116, 97, 114, 101, 97, 62, 60, 105, 110, 112, 117, 116, 32, 116, 121, 112, 101, 61, 34, 115, 117, 98, 109, 105, 116, 34, 62, 60, 47, 102, 111, 114, 109, 62]
        }),
{
    let f = edit_form_text(slug, text);
    let o = slug.len() + 60int;
    let n = slug.len() as int;
    let m = text.len() as int;
    assert(f.subrange(0, 20) =~= seq![60u8, 102, 111, 114, 109, 32, 97, 99, 116, 105, 111, 110, 61, 34, 47, 98, 108, 111, 103, 47]);
    assert(f.subrange(20, 20 + n) =~= slug);
    assert(f.subrange(20 + n, o) =~= seq![34u8, 32, 109, 101, 116, 104, 111, 100, 61, 34, 80, 79, 83, 84, 34, 62, 60, 116, 101, 120, 116, 97, 114, 101, 97, 32, 110, 97, 109, 101, 61, 34, 103, 101, 114, 97, 108, 100, 34, 62]);
    assert(f.subrange(o, o + m) =~= text);
    assert(f.subrange(o + m, f.len() as int) =~= seq![60u8, 47, 116, 101, 120, 116, 97, 114, 101, 97, 62, 60, 105, 110, 112, 117, 116, 32, 116, 121, 112, 101, 61, 34, 115, 117, 98, 109, 105, 116, 34, 62, 60, 47, 102, 111, 114, 109, 62]);
}

/// A formula paragraph's source is all of the paragraph after its first
/// line, line breaks included.
pub proof fn lemma_formula_paragraph(f: Seq<u8>)
    ensures
        render(seq![109u8, 116, 10] + f) == BlockView::Math(f),
{
    let b = seq![109u8, 116, 10] + f;
    assert(b.subrange(3, b.len() as int) =~= f);
}

/// A paragraph of `--` alone is a rule.
pub proof fn lemma_rule_paragraph()
    ensures
        render(seq![45u8, 45]) == BlockView::Html(seq![60u8, 104, 114, 47, 62]),
{
}

proof fn lemma_ctrl_at(b: Seq<u8>, from: int, e: int)
    requires
        0 <= from <= e <= b.len(),
        forall|k: int| from <= k < e ==> b[k] >= 0x20,
        e < b.len() ==> b[e] < 0x20,
    ensures
        ctrl_from(b, from) == e,
    decreases e - from,
{
    if from < e {
        lemma_ctrl_at(b, from + 1, e);
    }
}

/// A link paragraph: after the `ln` line, the address runs up to the first
/// control byte; the label is everything from that byte on, or the address
/// itself where nothing follows it.
pub proof fn lemma_link_paragraph(url: Seq<u8>, rest: Seq<u8>)
    requires
        forall|k: int| 0 <= k < url.len() ==> url[k] >= 0x20,
        rest.len() > 0 ==> rest[0] < 0x20,
    ensures
        render(seq![108u8, 110, 10] + url + rest) == BlockView::Html(
            seq![60u8, 112, 62, 60, 97, 32, 104, 114, 101, 102, 61, 34] + url + seq![34u8, 62] + (if rest.len() > 0 {
                rest
            } else {
                url
            }) + seq![60u8, 47, 97, 62, 60, 47, 112, 62],
        ),
{
    let b = seq![108u8, 110, 10] + url + rest;
    let e = 3 + url.len() as int;
    lemma_ctrl_at(b, 3, e);
    assert(b.subrange(3, e) =~= url);
    assert(b.subrange(e, b.len() as int) =~= rest);
}

/// An image paragraph: after the `im` line, the address runs up to the
/// first control byte, and what follows that byte describes the image (as
/// its alternative text and its title).
pub proof fn lemma_image_paragraph(url: Seq<u8>, sep: u8, alt: Seq<u8>)
    requires
        forall|k: int| 0 <= k < url.len() ==> url[k] >= 0x20,
        sep < 0x20,
    ensures
        render(seq![105u8, 109, 10] + url + seq![sep] + alt) == BlockView::Html(
            seq![60u8, 105, 109, 103, 32, 115, 114, 99, 61, 34] + url + seq![34u8, 32, 97, 108, 116, 61, 34] + alt + seq![34u8, 32, 116, 105, 116, 108, 101, 61, 34] + alt + seq![34u8, 47, 62],
        ),
        render(seq![105u8, 109, 10] + url) == BlockView::Html(seq![60u8, 105, 109, 103, 32, 115, 114, 99, 61, 34] + url + seq![34u8, 47, 62]),
{
    let b = seq![105u8, 109, 10] + url + seq![sep] + alt;
    let e = 3 + url.len() as int;
    lemma_ctrl_at(b, 3, e);
    assert(b.subrange(3, e) =~= url);
    assert(b.subrange(e + 1, b.len() as int) =~= alt);
    assert(seq![60u8, 105, 109, 103, 32, 115, 114, 99, 61, 34] + url + (seq![34u8, 32, 97, 108, 116, 61, 34] + alt + seq![34u8, 32, 116, 105, 116, 108, 101, 61, 34] + alt) + seq![34u8, 47, 62]
        =~= seq![60u8, 105, 109, 103, 32, 115, 114, 99, 61, 34] + url + seq![34u8, 32, 97, 108, 116, 61, 34] + alt + seq![34u8, 32, 116, 105, 116, 108, 101, 61, 34] + alt + seq![34u8, 47, 62]);
    let b2 = seq![105u8, 109, 10] + url;
    lemma_ctrl_at(b2, 3, e);
    assert(b2.subrange(3, e) =~= url);
    assert(seq![60u8, 105, 109, 103, 32, 115, 114, 99, 61, 34] + url + Seq::<u8>::empty() + seq![34u8, 47, 62] =~= seq![60u8, 105, 109, 103, 32, 115, 114, 99, 61, 34] + url + seq![34u8, 47, 62]);
}

/// Text with no newline shows as it is.
pub proof fn lemma_br_text_plain(s: Seq<u8>)
    requires
        forall|k: int| 0 <= k < s.len() ==> s[k] != 10,
    ensures
        br_text(s) == s,
    decreases s.len(),
{
    if s.len() > 0 {
        lemma_br_text_plain(s.drop_last());
        assert(s.drop_last() + seq![s.last()] =~= s);
    }
}

/// Line breaks: text, a newline and more text show as the first text, a
/// `<br/>` and the second.
pub proof fn lemma_br_text_split(a: Seq<u8>, c: Seq<u8>)
    ensures
        br_text(a + seq![10u8] + c) == br_text(a) + seq![60u8, 98, 114, 47, 62] + br_text(c),
    decreases c.len(),
{
    if c.len() == 0 {
        let s = a + seq![10u8];
        assert(s + c =~= s);
        assert(s.drop_last() =~= a);
        assert(br_text(c) =~= Seq::<u8>::empty());
        assert(br_text(a) + seq![60u8, 98, 114, 47, 62] + Seq::<u8>::empty() =~= br_text(a) + seq![60u8, 98, 114, 47, 62]);
    } else {
        let s = a + seq![10u8] + c;
        lemma_br_text_split(a, c.drop_last());
        assert(s.drop_last() =~= a + seq![10u8] + c.drop_last());
        assert(s.last() == c.last());
        let tail = if c.last() == 10 { seq![60u8, 98, 114, 47, 62] } else { seq![c.last()] };
        assert(br_text(a) + seq![60u8, 98, 114, 47, 62] + br_text(c.drop_last()) + tail =~= br_text(a) + seq![60u8, 98, 114, 47, 62]
            + (br_text(c.drop_last()) + tail));
    }
}

/// A paragraph that starts with none of the marks `mt`, `ln`, `im` (each
/// followed by a newline) and is not `--` is text, in a paragraph element.
pub proof fn lemma_text_paragraph(b: Seq<u8>)
    requires
        b.len() < 3 || !(b[2] == 10 && ((b[0] == 0x6d && b[1] == 0x74) || (b[0] == 0x6c && b[1]
            == 0x6e) || (b[0] == 0x69 && b[1] == 0x6d))),
        b != seq![45u8, 45],
    ensures
        render(b) == BlockView::Html(seq![60u8, 112, 62] + br_text(b) + seq![60u8, 47, 112, 62]),
{
    if b.len() == 2 && b[0] == 0x2d && b[1] == 0x2d {
        assert(b =~= seq![45u8, 45]);
    }
}

/// A paragraph as a post's source writes it: at least two bytes, starting
/// with a byte that is not blank, holding no empty line and not ending in
/// a newline.
pub open spec fn plain_paragraph(p: Seq<u8>) -> bool {
    &&& p.len() >= 2
    &&& p[0] > 0x20
    &&& p[p.len() - 1] != 10
    &&& forall|k: int| 0 <= k < p.len() - 1 ==> !(#[trigger] p[k] == 10 && p[k + 1] == 10)
}

/// Paragraphs one after the other, each two separated by an empty line.
pub open spec fn para_join(paras: Seq<Seq<u8>>) -> Seq<u8>
    decreases paras.len(),
{
    if paras.len() == 0 {
        seq![]
    } else if paras.len() == 1 {
        paras[0]
    } else {
        paras[0] + seq![10u8, 10] + para_join(paras.drop_first())
    }
}

proof fn lemma_para_end_finds(b: Seq<u8>, j: int, t: int)
    requires
        j <= t <= b.len() - 1,
        t < b.len() - 1 ==> b[t] == 10 && b[t + 1] == 10,
        forall|k: int| j <= k < t ==> !(#[trigger] b[k] == 10 && b[k + 1] == 10),
    ensures
        para_end(b, j) == t,
    decreases t - j,
{
    if j < t {
        assert(!(b[j] == 10 && b[j + 1] == 10));
        lemma_para_end_finds(b, j + 1, t);
    }
}

proof fn lemma_rendered_paras(b: Seq<u8>, i: int, paras: Seq<Seq<u8>>)
    requires
        0 <= i <= b.len(),
        b.subrange(i, b.len() as int) == para_join(paras).push(10),
        forall|k: int| 0 <= k < paras.len() ==> plain_paragraph(#[trigger] paras[k]),
    ensures
        rendered_from(b, i) == paras.map_values(|p: Seq<u8>| render(p)),
    decreases paras.len(),
{
    let t = b.subrange(i, b.len() as int);
    if paras.len() == 0 {
        assert(t =~= seq![10u8]);
        assert(b[i] == t[0]);
        assert(skip_blank(b, i + 1) == i + 1);
        assert(skip_blank(b, i) == b.len());
        assert(paras.map_values(|p: Seq<u8>| render(p)) =~= Seq::<BlockView>::empty());
    } else {
        let p0 = paras[0];
        assert(plain_paragraph(p0));
        let e = i + p0.len();
        if paras.len() == 1 {
            assert(t =~= p0.push(10));
        } else {
            assert(t =~= p0 + (seq![10u8, 10] + para_join(paras.drop_first()).push(10)));
        }
        assert(t.subrange(0, p0.len() as int) =~= p0);
        assert(b.subrange(i, e) =~= p0);
        assert(b[i] == p0[0]);
        assert(skip_blank(b, i) == i);
        assert(b[e] == t[p0.len() as int]);
        assert(b[e] == 10);
        assert forall|k: int| i + 2 <= k < e implies !(#[trigger] b[k] == 10 && b[k + 1] == 10) by {
            assert(b[k] == p0[k - i]);
            if k + 1 < e {
                assert(b[k + 1] == p0[k + 1 - i]);
            } else {
                assert(p0[k - i] != 10);
            }
        }
        let rest = paras.drop_first();
        if paras.len() == 1 {
            assert(e == b.len() - 1);
            lemma_para_end_finds(b, i + 2, e);
            assert(skip_blank(b, e + 1) == e + 1);
            assert(skip_blank(b, e) == b.len());
            assert(rendered_from(b, e) =~= Seq::<BlockView>::empty());
        } else {
            assert(b[e + 1] == t[p0.len() as int + 1]);
            lemma_para_end_finds(b, i + 2, e);
            assert(t.subrange(p0.len() as int + 2, t.len() as int) =~= para_join(rest).push(10));
            assert(b.subrange(e + 2, b.len() as int) =~= para_join(rest).push(10));
            assert forall|k: int| 0 <= k < rest.len() implies plain_paragraph(#[trigger] rest[k]) by {
                assert(rest[k] == paras[k + 1]);
            }
            lemma_rendered_paras(b, e + 2, rest);
            assert(b[e + 2] == rest[0][0]) by {
                assert(b[e + 2] == b.subrange(e + 2, b.len() as int)[0]);
                if rest.len() == 1 {
                } else {
                    assert(para_join(rest) == rest[0] + (seq![10u8, 10] + para_join(rest.drop_first())));
                }
                assert(plain_paragraph(rest[0]));
            }
            assert(skip_blank(b, e + 2) == e + 2);
            assert(skip_blank(b, e + 1) == e + 2);
            assert(skip_blank(b, e) == e + 2);
            assert(rendered_from(b, e) == rendered_from(b, e + 2));
        }
        assert(rendered_from(b, i) == seq![render(b.subrange(i, e))] + rendered_from(b, e));
        assert(paras.map_values(|p: Seq<u8>| render(p)) =~= seq![render(p0)] + rest.map_values(|p: Seq<u8>| render(p)));
    }
}

/// A post written as paragraphs separated by empty lines is rendered
/// paragraph by paragraph: its page is the edit link followed by each
/// paragraph's block, in order, none lost, split or merged.
pub proof fn lemma_post_paragraphs(slug: Seq<u8>, paras: Seq<Seq<u8>>)
    requires
        forall|k: int| 0 <= k < paras.len() ==> plain_paragraph(#[trigger] paras[k]),
    ensures
        blog_page(slug, para_join(paras)) == seq![BlockView::Html(edit_link(slug))] + paras.map_values(|p: Seq<u8>| render(p)),
{
    let b = para_join(paras).push(10);
    assert(b.subrange(0, b.len() as int) =~= b);
    lemma_rendered_paras(b, 0, paras);
}

} // verus!
