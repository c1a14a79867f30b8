//! Texts in parts: splitting, joining and trimming.

use crate::text::{chars_of, text_of};
use vstd::prelude::*;

verus! {

/// The parts of a text between separators.
pub open spec fn split_text(s: Seq<char>, sep: char) -> Seq<Seq<char>>
    decreases s.len(),
{
    if s.len() == 0 {
        seq![seq![]]
    } else {
        let before = split_text(s.drop_last(), sep);
        if s.last() == sep {
            before.push(seq![])
        } else {
            before.update(before.len() - 1, before.last().push(s.last()))
        }
    }
}

/// What some texts stand for.
pub open spec fn texts(parts: Seq<String>) -> Seq<Seq<char>> {
    parts.map_values(|s: String| s@)
}

/// The parts of a text between separators.
pub fn split_str(s: &str, sep: char) -> (r: Vec<String>)
    ensures
        texts(r@) == split_text(s@, sep),
        r@.len() > 0,
{
    let v = chars_of(s);
    let mut done: Vec<String> = Vec::new();
    let mut part = String::new();
    let mut i: usize = 0;
    assert(texts(done@).push(part@) =~= split_text(v@.take(0), sep));
    while i < v.len()
        invariant
            i <= v@.len(),
            texts(done@).push(part@) == split_text(v@.take(i as int), sep),
        decreases v@.len() - i,
    {
        let c = v[i];
        assert(v@.take(i + 1).drop_last() =~= v@.take(i as int));
        let ghost before = texts(done@).push(part@);
        let ghost old_part = part@;
        if c == sep {
            let ghost prev = done@;
            done.push(part);
            assert(texts(done@) =~= texts(prev).push(old_part));
            part = String::new();
            assert(texts(done@).push(part@) =~= before.push(seq![]));
        } else {
            part.push(c);
            assert(texts(done@).push(part@) =~= before.update(
                before.len() - 1,
                old_part.push(c),
            ));
        }
        i += 1;
    }
    assert(v@.take(v@.len() as int) =~= v@);
    let ghost prev = done@;
    let ghost last = part@;
    done.push(part);
    assert(texts(done@) =~= texts(prev).push(last));
    done
}

/// Whether a character does not occur in a text.
pub open spec fn free_of(s: Seq<char>, c: char) -> bool {
    forall|i: int| 0 <= i < s.len() ==> #[trigger] s[i] != c
}

/// A text without separators is one part.
pub proof fn lemma_split_one(s: Seq<char>, sep: char)
    requires
        free_of(s, sep),
    ensures
        split_text(s, sep) == seq![s],
    decreases s.len(),
{
    if s.len() > 0 {
        let front = s.drop_last();
        assert(forall|i: int| 0 <= i < front.len() ==> front[i] == s[i]);
        lemma_split_one(front, sep);
        assert(s[s.len() - 1] != sep);
        assert(front.push(s.last()) =~= s);
        assert(seq![front].update(0, s) =~= seq![s]);
    } else {
        assert(s =~= seq![]);
    }
}

/// The parts of two texts in a row.
pub proof fn lemma_split_concat(a: Seq<char>, b: Seq<char>, sep: char)
    ensures
        split_text(a, sep).len() > 0,
        split_text(b, sep).len() > 0,
        split_text(a + b, sep) == split_text(a, sep).drop_last().push(
            split_text(a, sep).last() + split_text(b, sep)[0],
        ) + split_text(b, sep).skip(1),
    decreases b.len(),
{
    lemma_split_some(a, sep);
    lemma_split_some(b, sep);
    let x = split_text(a, sep);
    if b.len() == 0 {
        assert(a + b =~= a);
        assert(x.last() + seq![] =~= x.last());
        assert(x.drop_last().push(x.last()) =~= x);
        assert(split_text(b, sep).skip(1) =~= seq![]);
        assert(x + seq![] =~= x);
    } else {
        let front = b.drop_last();
        lemma_split_concat(a, front, sep);
        assert((a + b).drop_last() =~= a + front);
        let y = split_text(front, sep);
        let z = split_text(b, sep);
        let before = split_text(a + front, sep);
        let after = split_text(a + b, sep);
        let goal = x.drop_last().push(x.last() + z[0]) + z.skip(1);
        if b.last() == sep {
            assert(after =~= goal);
        } else if y.len() == 1 {
            assert(x.last() + y[0].push(b.last()) =~= (x.last() + y[0]).push(b.last()));
            assert(after =~= goal);
        } else {
            assert(after =~= goal);
        }
    }
}

proof fn lemma_split_some(s: Seq<char>, sep: char)
    ensures
        split_text(s, sep).len() > 0,
    decreases s.len(),
{
    if s.len() > 0 {
        lemma_split_some(s.drop_last(), sep);
    }
}

/// A text behind a separator is one more part.
pub proof fn lemma_split_push(a: Seq<char>, part: Seq<char>, sep: char)
    requires
        free_of(part, sep),
    ensures
        split_text(a.push(sep) + part, sep) == split_text(a, sep).push(part),
{
    lemma_split_concat(a.push(sep), part, sep);
    lemma_split_one(part, sep);
    assert(a.push(sep).drop_last() =~= a);
    let x = split_text(a, sep);
    assert(split_text(a.push(sep), sep) == x.push(seq![]));
    assert(x.push(seq![]).drop_last() =~= x);
    assert(Seq::<char>::empty() + part =~= part);
    assert(split_text(a.push(sep) + part, sep) =~= x.push(part));
}

/// Some texts with separators between them.
pub open spec fn joined(parts: Seq<Seq<char>>, sep: char) -> Seq<char>
    decreases parts.len(),
{
    if parts.len() == 0 {
        seq![]
    } else if parts.len() == 1 {
        parts[0]
    } else {
        joined(parts.drop_last(), sep).push(sep) + parts.last()
    }
}

/// The parts of joined texts are the texts.
pub proof fn lemma_joined_split(parts: Seq<Seq<char>>, sep: char)
    requires
        parts.len() > 0,
        forall|i: int| 0 <= i < parts.len() ==> free_of(#[trigger] parts[i], sep),
    ensures
        split_text(joined(parts, sep), sep) == parts,
    decreases parts.len(),
{
    assert(free_of(parts[parts.len() - 1], sep));
    if parts.len() == 1 {
        lemma_split_one(parts[0], sep);
        assert(parts =~= seq![parts[0]]);
    } else {
        let front = parts.drop_last();
        assert(forall|i: int| 0 <= i < front.len() ==> front[i] == parts[i]);
        lemma_joined_split(front, sep);
        lemma_split_push(joined(front, sep), parts.last(), sep);
        assert(front.push(parts.last()) =~= parts);
    }
}

/// Puts a text behind another.
pub fn push_text(s: &mut String, t: &str)
    ensures
        final(s)@ == old(s)@ + t@,
{
    let v = chars_of(t);
    let ghost before = s@;
    let mut i: usize = 0;
    assert(s@ =~= before + v@.take(0));
    while i < v.len()
        invariant
            i <= v@.len(),
            s@ == before + v@.take(i as int),
        decreases v@.len() - i,
    {
        s.push(v[i]);
        assert(s@ =~= before + v@.take(i + 1));
        i += 1;
    }
    assert(v@.take(v@.len() as int) =~= v@);
}

/// Joins some texts with separators between them.
pub fn join_texts(parts: &Vec<String>, sep: char) -> (s: String)
    ensures
        s@ == joined(texts(parts@), sep),
{
    let ghost all = texts(parts@);
    let mut s = String::new();
    let mut i: usize = 0;
    assert(all.take(0) =~= seq![]);
    while i < parts.len()
        invariant
            i <= parts@.len(),
            all == texts(parts@),
            s@ == joined(all.take(i as int), sep),
        decreases parts@.len() - i,
    {
        assert(all.take(i + 1).drop_last() =~= all.take(i as int));
        if i > 0 {
            s.push(sep);
        }
        push_text(&mut s, parts[i].as_str());
        assert(all.take(i + 1).last() == parts@[i as int]@);
        assert(s@ =~= joined(all.take(i + 1), sep));
        i += 1;
    }
    assert(all.take(all.len() as int) =~= all);
    s
}

/// Whether a character counts as white space.
pub open spec fn is_white(c: char) -> bool {
    ||| '\u{9}' <= c <= '\u{d}'
    ||| c == ' '
    ||| c == '\u{85}'
    ||| c == '\u{a0}'
    ||| c == '\u{1680}'
    ||| '\u{2000}' <= c <= '\u{200a}'
    ||| c == '\u{2028}'
    ||| c == '\u{2029}'
    ||| c == '\u{202f}'
    ||| c == '\u{205f}'
    ||| c == '\u{3000}'
}

fn white(c: char) -> (b: bool)
    ensures
        b == is_white(c),
{
    ('\u{9}' <= c && c <= '\u{d}') || c == ' ' || c == '\u{85}' || c == '\u{a0}' || c
        == '\u{1680}' || ('\u{2000}' <= c && c <= '\u{200a}') || c == '\u{2028}' || c
        == '\u{2029}' || c == '\u{202f}' || c == '\u{205f}' || c == '\u{3000}'
}

/// A text without the white space at its start.
pub open spec fn trim_front(s: Seq<char>) -> Seq<char>
    decreases s.len(),
{
    if s.len() > 0 && is_white(s[0]) {
        trim_front(s.skip(1))
    } else {
        s
    }
}

/// A text without the white space at its end.
pub open spec fn trim_back(s: Seq<char>) -> Seq<char>
    decreases s.len(),
{
    if s.len() > 0 && is_white(s.last()) {
        trim_back(s.drop_last())
    } else {
        s
    }
}

/// A text without the white space around it.
pub open spec fn trimmed(s: Seq<char>) -> Seq<char> {
    trim_back(trim_front(s))
}

/// A text from a place on without the white space around it.
pub fn trim_from(v: &Vec<char>, from: usize) -> (s: String)
    requires
        from <= v@.len(),
    ensures
        s@ == trimmed(v@.skip(from as int)),
{
    let ghost all = v@.skip(from as int);
    let mut lo: usize = from;
    while lo < v.len() && white(v[lo])
        invariant
            from <= lo <= v@.len(),
            trim_front(all) == trim_front(v@.skip(lo as int)),
        decreases v@.len() - lo,
    {
        assert(v@.skip(lo as int).skip(1) =~= v@.skip(lo + 1));
        lo += 1;
    }
    let ghost rest = v@.skip(lo as int);
    let mut hi: usize = v.len();
    assert(v@.subrange(lo as int, hi as int) =~= rest);
    while lo < hi && white(v[hi - 1])
        invariant
            lo <= hi <= v@.len(),
            trim_back(rest) == trim_back(v@.subrange(lo as int, hi as int)),
        decreases hi - lo,
    {
        assert(v@.subrange(lo as int, hi as int).drop_last() =~= v@.subrange(
            lo as int,
            hi - 1,
        ));
        hi -= 1;
    }
    text_of(v, lo, hi)
}

/// Whether a text begins with another.
pub open spec fn begins_with(s: Seq<char>, prefix: Seq<char>) -> bool {
    s.len() >= prefix.len() && s.take(prefix.len() as int) == prefix
}

/// Whether a text begins with another.
pub fn has_prefix(v: &Vec<char>, prefix: &str) -> (b: bool)
    ensures
        b == begins_with(v@, prefix@),
{
    let p = chars_of(prefix);
    if v.len() < p.len() {
        return false;
    }
    let mut i: usize = 0;
    while i < p.len()
        invariant
            i <= p@.len() <= v@.len(),
            p@ == prefix@,
            forall|j: int| 0 <= j < i ==> v@[j] == p@[j],
        decreases p@.len() - i,
    {
        if v[i] != p[i] {
            assert(v@.take(p@.len() as int)[i as int] != p@[i as int]);
            return false;
        }
        i += 1;
    }
    assert(v@.take(p@.len() as int) =~= p@);
    true
}

} // verus!
