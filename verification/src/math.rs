//! The words of a formula's source, each a stack operation of the
//! typesetter.
use vstd::prelude::*;
use crate::blog::{lemma_skip_blank, skip_blank};

verus! {

/// What a word of a formula asks the typesetter to do.
#[derive(Clone, Copy, PartialEq, Eq, Debug)]
pub enum MathOp {
    /// `0`: push the glyph of zero.
    Zero,
    /// `1`: push the glyph of one.
    One,
    /// `+`: join the two topmost boxes with a plus sign.
    Plus,
    /// `/`: put the topmost box under the one below it, with a fraction bar.
    Bar,
    /// Any other word, which is ignored.
    Unknown,
}

/// The first index from `j` on whose byte is blank (at most `0x20`), or
/// the length of `s`.
pub open spec fn word_end(s: Seq<u8>, j: int) -> int
    decreases s.len() - j,
{
    if j >= s.len() {
        j
    } else if s[j] <= 0x20 {
        j
    } else {
        word_end(s, j + 1)
    }
}

pub proof fn lemma_word_end(s: Seq<u8>, j: int)
    ensures
        j <= word_end(s, j),
        j <= s.len() ==> word_end(s, j) <= s.len(),
    decreases s.len() - j,
{
    if j < s.len() && s[j] > 0x20 {
        lemma_word_end(s, j + 1);
    }
}

/// The operation a word stands for.
pub open spec fn op_of(w: Seq<u8>) -> MathOp {
    if w.len() == 1 && w[0] == 0x30 {
        MathOp::Zero
    } else if w.len() == 1 && w[0] == 0x31 {
        MathOp::One
    } else if w.len() == 1 && w[0] == 0x2b {
        MathOp::Plus
    } else if w.len() == 1 && w[0] == 0x2f {
        MathOp::Bar
    } else {
        MathOp::Unknown
    }
}

/// The operations of the words of `s` from `i` on; words are separated by
/// blank bytes.
pub open spec fn ops_from(s: Seq<u8>, i: int) -> Seq<MathOp>
    decreases s.len() + 1 - i,
{
    if i < 0 {
        seq![]
    } else {
        let a = skip_blank(s, i);
        if a >= s.len() {
            seq![]
        } else {
            let e = word_end(s, a + 1);
            proof {
                lemma_skip_blank(s, i);
                lemma_word_end(s, a + 1);
            }
            seq![op_of(s.subrange(a, e))] + ops_from(s, e)
        }
    }
}

/// The operations that a formula's source spells, word by word.
pub fn glyph_ops(source: &[u8]) -> (r: Vec<MathOp>)
    ensures
        r@ == ops_from(source@, 0),
{
    let n = source.len();
    let mut out: Vec<MathOp> = Vec::new();
    let mut i: usize = 0;
    assert(out@ + ops_from(source@, 0) =~= ops_from(source@, 0));
    loop
        invariant
            n == source@.len(),
            i <= n,
            out@ + ops_from(source@, i as int) == ops_from(source@, 0),
        decreases n + 1 - i,
    {
        let ghost i0 = i as int;
        while i < n && source[i] <= 0x20
            invariant
                n == source@.len(),
                i0 <= i <= n,
                skip_blank(source@, i0) == skip_blank(source@, i as int),
            decreases n - i,
        {
            i += 1;
        }
        if i >= n {
            assert(out@ + Seq::<MathOp>::empty() =~= out@);
            return out;
        }
        let mut j: usize = i + 1;
        while j < n && source[j] > 0x20
            invariant
                n == source@.len(),
                i + 1 <= j <= n,
                word_end(source@, (i + 1) as int) == word_end(source@, j as int),
            decreases n - j,
        {
            j += 1;
        }
        let ghost w = source@.subrange(i as int, j as int);
        let op = if j - i == 1 && source[i] == 0x30 {
            MathOp::Zero
        } else if j - i == 1 && source[i] == 0x31 {
            MathOp::One
        } else if j - i == 1 && source[i] == 0x2b {
            MathOp::Plus
        } else if j - i == 1 && source[i] == 0x2f {
            MathOp::Bar
        } else {
            MathOp::Unknown
        };
        assert(op == op_of(w));
        let ghost before = out@;
        out.push(op);
        assert(before + (seq![op] + ops_from(source@, j as int)) =~= out@ + ops_from(source@, j as int));
        i = j;
    }
}

/// A word of a formula: at least one byte, none of them blank.
pub open spec fn is_word(w: Seq<u8>) -> bool {
    w.len() > 0 && forall|k: int| 0 <= k < w.len() ==> w[k] > 0x20
}

/// Words one after the other, each two separated by the blank byte `sep`.
pub open spec fn word_join(words: Seq<Seq<u8>>, sep: u8) -> Seq<u8>
    decreases words.len(),
{
    if words.len() == 0 {
        seq![]
    } else if words.len() == 1 {
        words[0]
    } else {
        words[0] + seq![sep] + word_join(words.drop_first(), sep)
    }
}

proof fn lemma_word_end_finds(s: Seq<u8>, j: int, t: int)
    requires
        j <= t <= s.len(),
        t < s.len() ==> s[t] <= 0x20,
        forall|k: int| j <= k < t ==> s[k] > 0x20,
    ensures
        word_end(s, j) == t,
    decreases t - j,
{
    if j < t {
        lemma_word_end_finds(s, j + 1, t);
    }
}

proof fn lemma_ops_of_words(s: Seq<u8>, i: int, words: Seq<Seq<u8>>, sep: u8)
    requires
        0 <= i <= s.len(),
        sep <= 0x20,
        s.subrange(i, s.len() as int) == word_join(words, sep),
        forall|k: int| 0 <= k < words.len() ==> is_word(#[trigger] words[k]),
    ensures
        ops_from(s, i) == words.map_values(|w: Seq<u8>| op_of(w)),
    decreases words.len(),
{
    let t = s.subrange(i, s.len() as int);
    if words.len() == 0 {
        assert(t.len() == 0);
        assert(words.map_values(|w: Seq<u8>| op_of(w)) =~= Seq::<MathOp>::empty());
    } else {
        let w0 = words[0];
        assert(is_word(w0));
        let e = i + w0.len();
        let rest = words.drop_first();
        if words.len() == 1 {
            assert(t == w0);
        } else {
            assert(t == w0 + seq![sep] + word_join(rest, sep));
        }
        assert(t.subrange(0, w0.len() as int) =~= w0);
        assert(s.subrange(i, e) =~= w0);
        assert forall|k: int| i <= k < e implies s[k] > 0x20 by {
            assert(s[k] == w0[k - i]);
        }
        assert(skip_blank(s, i) == i);
        if words.len() == 1 {
            lemma_word_end_finds(s, i + 1, e);
            assert(skip_blank(s, e) == e);
            assert(ops_from(s, e) =~= Seq::<MathOp>::empty());
        } else {
            assert(s[e] == t[w0.len() as int]);
            lemma_word_end_finds(s, i + 1, e);
            assert(t.subrange(w0.len() as int + 1, t.len() as int) =~= word_join(rest, sep));
            assert(s.subrange(e + 1, s.len() as int) =~= word_join(rest, sep));
            assert forall|k: int| 0 <= k < rest.len() implies is_word(#[trigger] rest[k]) by {
                assert(rest[k] == words[k + 1]);
            }
            lemma_ops_of_words(s, e + 1, rest, sep);
            assert(s[e + 1] == rest[0][0]) by {
                assert(s[e + 1] == s.subrange(e + 1, s.len() as int)[0]);
                if rest.len() > 1 {
                    assert(word_join(rest, sep) == rest[0] + seq![sep] + word_join(rest.drop_first(), sep));
                }
                assert(is_word(rest[0]));
            }
            assert(skip_blank(s, e + 1) == e + 1);
            assert(skip_blank(s, e) == e + 1);
            assert(ops_from(s, e) == ops_from(s, e + 1));
        }
        assert(ops_from(s, i) == seq![op_of(s.subrange(i, e))] + ops_from(s, e));
        assert(words.map_values(|w: Seq<u8>| op_of(w)) =~= seq![op_of(w0)] + rest.map_values(|w: Seq<u8>| op_of(w)));
    }
}

/// A formula written as words separated by a blank byte (a space or a
/// line break) gives one operation per word, in order: `0`, `1`, `+` and
/// `/` their own, any other word none that counts.
pub proof fn lemma_formula_words(words: Seq<Seq<u8>>, sep: u8)
    requires
        sep <= 0x20,
        forall|k: int| 0 <= k < words.len() ==> is_word(#[trigger] words[k]),
    ensures
        ops_from(word_join(words, sep), 0) == words.map_values(|w: Seq<u8>| op_of(w)),
        forall|k: int|
            0 <= k < words.len() ==> {
                let op = #[trigger] ops_from(word_join(words, sep), 0)[k];
                &&& words[k] == seq![0x30u8] ==> op == MathOp::Zero
                &&& words[k] == seq![0x31u8] ==> op == MathOp::One
                &&& words[k] == seq![0x2bu8] ==> op == MathOp::Plus
                &&& words[k] == seq![0x2fu8] ==> op == MathOp::Bar
                &&& words[k].len() > 1 ==> op == MathOp::Unknown
            },
{
    let s = word_join(words, sep);
    assert(s.subrange(0, s.len() as int) =~= s);
    lemma_ops_of_words(s, 0, words, sep);
}

} // verus!
