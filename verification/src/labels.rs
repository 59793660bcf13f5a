//! Pool labels such as `XRP/USD`: their currencies, and the distinct
//! currencies of a set of pools.
use vstd::prelude::*;
use vstd::string::{StrSliceExecFns, StringExecFns};

verus! {

/// The parts of a text split at each `/`, as `str::split('/')` yields
/// them: one part for a text without `/`, an empty part at each end that a
/// `/` opens or closes.
pub open spec fn split_parts(s: Seq<char>) -> Seq<Seq<char>>
    decreases s.len(),
{
    if s.len() == 0 {
        seq![Seq::empty()]
    } else {
        let p = split_parts(s.drop_last());
        if s.last() == '/' {
            p.push(Seq::empty())
        } else {
            p.update(p.len() - 1, p.last().push(s.last()))
        }
    }
}

/// A split always has at least one part.
proof fn lemma_split_nonempty(s: Seq<char>)
    ensures
        split_parts(s).len() >= 1,
    decreases s.len(),
{
    if s.len() > 0 {
        lemma_split_nonempty(s.drop_last());
    }
}

/// Splits a label at each `/`.
pub fn split_label(label: &str) -> (r: Vec<String>)
    ensures
        r.len() == split_parts(label@).len(),
        forall|j: int| 0 <= j < r.len() ==> (#[trigger] r[j])@ == split_parts(label@)[j],
{
    let n = label.unicode_len();
    let ghost s = label@;
    let mut parts: Vec<String> = Vec::new();
    let mut start: usize = 0;
    let mut i: usize = 0;
    while i < n
        invariant
            n == s.len(),
            s == label@,
            start <= i <= n,
            split_parts(s.take(i as int)).len() == parts.len() + 1,
            forall|j: int|
                0 <= j < parts.len() ==> (#[trigger] parts[j])@ == split_parts(s.take(i as int))[j],
            split_parts(s.take(i as int)).last() == s.subrange(start as int, i as int),
        decreases n - i,
    {
        let c = label.get_char(i);
        proof {
            assert(s.take(i + 1).drop_last() =~= s.take(i as int));
            assert(s.take(i + 1).last() == c);
            lemma_split_nonempty(s.take(i as int));
        }
        if c == '/' {
            let part = String::from_str(label.substring_char(start, i));
            parts.push(part);
            start = i + 1;
            assert(s.subrange(start as int, i + 1) =~= Seq::<char>::empty());
        } else {
            assert(s.subrange(start as int, i + 1) =~= s.subrange(start as int, i as int).push(c));
        }
        i += 1;
    }
    assert(s.take(n as int) =~= s);
    let last = String::from_str(label.substring_char(start, n));
    parts.push(last);
    parts
}

/// The two currencies of a label made of exactly two parts.
pub fn pool_currencies(label: &str) -> (r: Option<(String, String)>)
    ensures
        r is Some <==> split_parts(label@).len() == 2,
        match r {
            Some((first, second)) => first@ == split_parts(label@)[0] && second@ == split_parts(
                label@,
            )[1],
            None => true,
        },
{
    let mut parts = split_label(label);
    if parts.len() != 2 {
        return None;
    }
    let second = parts.pop().unwrap();
    let first = parts.pop().unwrap();
    Some((first, second))
}

/// The parts of every label, in order.
pub open spec fn all_parts(labels: Seq<Seq<char>>) -> Seq<Seq<char>>
    decreases labels.len(),
{
    if labels.len() == 0 {
        Seq::empty()
    } else {
        all_parts(labels.drop_last()) + split_parts(labels.last())
    }
}

/// The distinct texts of a sequence, each where it first occurs.
pub open spec fn first_occurrences(s: Seq<Seq<char>>) -> Seq<Seq<char>>
    decreases s.len(),
{
    if s.len() == 0 {
        Seq::empty()
    } else {
        let d = first_occurrences(s.drop_last());
        if d.contains(s.last()) {
            d
        } else {
            d.push(s.last())
        }
    }
}

/// Whether two texts are equal.
pub(crate) fn same_chars(a: &str, b: &str) -> (r: bool)
    ensures
        r == (a@ == b@),
{
    let n = a.unicode_len();
    let m = b.unicode_len();
    if n != m {
        return false;
    }
    let mut i: usize = 0;
    while i < n
        invariant
            n == a@.len(),
            m == b@.len(),
            n == m,
            i <= n,
            forall|k: int| 0 <= k < i ==> a@[k] == b@[k],
        decreases n - i,
    {
        if a.get_char(i) != b.get_char(i) {
            return false;
        }
        i += 1;
    }
    assert(a@ =~= b@);
    true
}

/// Whether `texts` holds `t`.
fn holds_text(texts: &Vec<String>, t: &String) -> (r: bool)
    ensures
        r == texts@.map_values(|x: String| x@).contains(t@),
{
    let ghost views = texts@.map_values(|x: String| x@);
    let mut i: usize = 0;
    while i < texts.len()
        invariant
            i <= texts.len(),
            views == texts@.map_values(|x: String| x@),
            forall|k: int| 0 <= k < i ==> views[k] != t@,
        decreases texts.len() - i,
    {
        if same_chars(texts[i].as_str(), t.as_str()) {
            assert(views[i as int] == t@);
            return true;
        }
        i += 1;
    }
    false
}

/// The distinct currencies of the given pool labels, in the order they
/// first occur.
pub fn distinct_currencies(labels: &[String]) -> (r: Vec<String>)
    ensures
        r@.map_values(|x: String| x@) == first_occurrences(
            all_parts(labels@.map_values(|x: String| x@)),
        ),
{
    let ghost views = labels@.map_values(|x: String| x@);
    let mut out: Vec<String> = Vec::new();
    let mut i: usize = 0;
    while i < labels.len()
        invariant
            i <= labels.len(),
            views == labels@.map_values(|x: String| x@),
            out@.map_values(|x: String| x@) == first_occurrences(all_parts(views.take(i as int))),
        decreases labels.len() - i,
    {
        let parts = split_label(labels[i].as_str());
        let ghost before = all_parts(views.take(i as int));
        proof {
            assert(views.take(i + 1).drop_last() =~= views.take(i as int));
            assert(views.take(i + 1).last() == labels@[i as int]@);
        }
        let mut j: usize = 0;
        while j < parts.len()
            invariant
                j <= parts.len(),
                parts.len() == split_parts(labels@[i as int]@).len(),
                forall|k: int|
                    0 <= k < parts.len() ==> (#[trigger] parts[k])@ == split_parts(
                        labels@[i as int]@,
                    )[k],
                out@.map_values(|x: String| x@) == first_occurrences(
                    before + split_parts(labels@[i as int]@).take(j as int),
                ),
            decreases parts.len() - j,
        {
            let ghost seen = before + split_parts(labels@[i as int]@).take(j as int);
            proof {
                assert((before + split_parts(labels@[i as int]@).take(j + 1)).drop_last() =~= seen);
                assert((before + split_parts(labels@[i as int]@).take(j + 1)).last()
                    == parts[j as int]@);
            }
            if !holds_text(&out, &parts[j]) {
                let ghost prev = out@;
                out.push(parts[j].clone());
                assert(out@.map_values(|x: String| x@) =~= prev.map_values(|x: String| x@).push(
                    parts[j as int]@,
                ));
            }
            j += 1;
        }
        assert(split_parts(labels@[i as int]@).take(parts.len() as int) =~= split_parts(
            labels@[i as int]@,
        ));
        i += 1;
    }
    assert(views.take(labels.len() as int) =~= views);
    out
}

} // verus!
