use crate::order::{compare_keys, key_lt};
use vstd::prelude::*;
use vstd::string::StrSliceExecFns;

verus! {

/// A label: a key and its value.
pub struct Label(pub String, pub String);

impl View for Label {
    type V = (Seq<char>, Seq<char>);

    open spec fn view(&self) -> (Seq<char>, Seq<char>) {
        (self.0@, self.1@)
    }
}

/// The views of a sequence of labels.
pub open spec fn label_views(s: Seq<Label>) -> Seq<(Seq<char>, Seq<char>)> {
    s.map_values(|l: Label| l@)
}

impl Label {
    pub fn new(key: String, value: String) -> (r: Label)
        ensures
            r.0 == key,
            r.1 == value,
    {
        Label(key, value)
    }

    /// A copy of this label.
    pub fn duplicate(&self) -> (r: Label)
        ensures
            r@ == self@,
    {
        Label(self.0.clone(), self.1.clone())
    }
}

/// A copy of each label, in order.
pub fn duplicate_labels(labels: &Vec<Label>) -> (r: Vec<Label>)
    ensures
        label_views(r@) == label_views(labels@),
{
    let mut out: Vec<Label> = Vec::new();
    let mut i: usize = 0;
    while i < labels.len()
        invariant
            i <= labels@.len(),
            label_views(out@) == label_views(labels@.take(i as int)),
        decreases labels@.len() - i,
    {
        let ghost prev = out@;
        out.push(labels[i].duplicate());
        assert(labels@.take(i + 1) =~= labels@.take(i as int).push(labels@[i as int]));
        assert(label_views(out@) =~= label_views(prev).push(labels@[i as int]@));
        assert(label_views(labels@.take(i + 1)) =~= label_views(labels@.take(i as int)).push(
            labels@[i as int]@,
        ));
        i = i + 1;
    }
    assert(labels@.take(i as int) =~= labels@);
    out
}

/// The value of the first label with key `key`, if any.
pub open spec fn label_value(labels: Seq<(Seq<char>, Seq<char>)>, key: Seq<char>) -> Option<Seq<char>>
    decreases labels.len(),
{
    if labels.len() == 0 {
        None
    } else if labels[0].0 == key {
        Some(labels[0].1)
    } else {
        label_value(labels.drop_first(), key)
    }
}

/// The value of the first label with key `key`, if any.
pub fn find_label_value(labels: &Vec<Label>, key: &str) -> (r: Option<String>)
    ensures
        match r {
            Some(v) => label_value(label_views(labels@), key@) == Some(v@),
            None => label_value(label_views(labels@), key@) is None,
        },
{
    let ghost all = label_views(labels@);
    let mut i: usize = 0;
    assert(all.subrange(0, all.len() as int) =~= all);
    while i < labels.len()
        invariant
            i <= labels@.len(),
            all == label_views(labels@),
            label_value(all, key@) == label_value(all.subrange(i as int, all.len() as int), key@),
        decreases labels@.len() - i,
    {
        let ghost rest = all.subrange(i as int, all.len() as int);
        assert(rest[0] == labels@[i as int]@);
        if compare_keys(labels[i].0.as_str(), key) == 0 {
            return Some(labels[i].1.clone());
        }
        assert(rest.drop_first() =~= all.subrange(i + 1, all.len() as int));
        i = i + 1;
    }
    None
}

/// The text of a label: `key=value`.
pub open spec fn label_text(l: (Seq<char>, Seq<char>)) -> Seq<char> {
    l.0 + seq!['='] + l.1
}

/// The texts of the labels joined by commas.
pub open spec fn selector_text(ls: Seq<(Seq<char>, Seq<char>)>) -> Seq<char>
    decreases ls.len(),
{
    if ls.len() == 0 {
        Seq::empty()
    } else if ls.len() == 1 {
        label_text(ls[0])
    } else {
        selector_text(ls.drop_last()) + seq![','] + label_text(ls.last())
    }
}

/// Appends a string slice.
/// Relies on `String::push_str`, which appends the given slice to the end of the string.
#[verifier::external_body]
fn push_text(s: &mut String, t: &str)
    ensures
        final(s)@ == old(s)@ + t@,
{
    s.push_str(t)
}

impl Label {
    /// The label as `key=value`.
    pub fn to_string(&self) -> (r: String)
        ensures
            r@ == label_text(self@),
    {
        let mut s = self.0.clone();
        push_text(&mut s, "=");
        push_text(&mut s, self.1.as_str());
        proof {
            reveal_strlit("=");
        }
        assert(s@ =~= label_text(self@));
        s
    }

    /// A label from a key and a value.
    pub fn from(item: (&str, &str)) -> (r: Label)
        ensures
            r@ == (item.0@, item.1@),
    {
        Label(item.0.to_owned(), item.1.to_owned())
    }
}

/// The labels as a selector: `key=value` texts joined by commas.
pub fn selector_of(labels: &Vec<Label>) -> (r: String)
    ensures
        r@ == selector_text(label_views(labels@)),
{
    let ghost all = label_views(labels@);
    let mut out = String::new();
    let mut i: usize = 0;
    while i < labels.len()
        invariant
            i <= labels@.len(),
            all == label_views(labels@),
            out@ == selector_text(all.take(i as int)),
        decreases labels@.len() - i,
    {
        assert(all.take(i + 1).drop_last() =~= all.take(i as int));
        assert(all.take(i + 1).last() == labels@[i as int]@);
        let ghost before = out@;
        if i > 0 {
            push_text(&mut out, ",");
            proof {
                reveal_strlit(",");
                assert(out@ =~= before + seq![',']);
            }
        }
        let text = labels[i].to_string();
        push_text(&mut out, text.as_str());
        proof {
            if i == 0 {
                assert(all.take(1) =~= seq![all[0]]);
                assert(out@ =~= label_text(all[0]));
            } else {
                assert(out@ =~= selector_text(all.take(i as int)) + seq![','] + label_text(
                    labels@[i as int]@,
                ));
            }
        }
        i = i + 1;
    }
    assert(all.take(i as int) =~= all);
    out
}

/// Why a `KEY=VALUE` text could not be read as a label.
pub enum LabelParseError {
    /// The text holds no `=`.
    MissingSeparator,
}

impl LabelParseError {
    /// A message for people.
    pub fn message(&self) -> (r: &'static str)
        ensures
            r@ == "Not found `=` in key value pair(KEY=VALUE)"@,
    {
        match self {
            LabelParseError::MissingSeparator => "Not found `=` in key value pair(KEY=VALUE)",
        }
    }
}

/// Reads `KEY=VALUE`: the key is what precedes the first `=`, the value all that follows it.
pub fn parse_key_val(s: &str) -> (r: Result<Label, LabelParseError>)
    ensures
        r is Err <==> !s@.contains('='),
        r matches Ok(l) ==> !l.0@.contains('=') && s@ == l.0@ + seq!['='] + l.1@,
{
    let n = s.unicode_len();
    let mut p: usize = 0;
    while p < n && s.get_char(p) != '='
        invariant
            n == s@.len(),
            p <= n,
            forall|q: int| 0 <= q < p ==> s@[q] != '=',
        decreases n - p,
    {
        p = p + 1;
    }
    if p == n {
        return Err(LabelParseError::MissingSeparator);
    }
    let key = s.substring_char(0, p).to_owned();
    let value = s.substring_char(p + 1, n).to_owned();
    assert(s@ =~= key@ + seq!['='] + value@);
    Ok(Label(key, value))
}

/// The value of the last label with key `key`, if any.
pub open spec fn last_value(labels: Seq<(Seq<char>, Seq<char>)>, key: Seq<char>) -> Option<Seq<char>>
    decreases labels.len(),
{
    if labels.len() == 0 {
        None
    } else if labels.last().0 == key {
        Some(labels.last().1)
    } else {
        last_value(labels.drop_last(), key)
    }
}

/// Labels strictly ascending by key.
pub open spec fn keys_ascending(labels: Seq<(Seq<char>, Seq<char>)>) -> bool {
    forall|i: int, j: int|
        0 <= i < j < labels.len() ==> key_lt(#[trigger] labels[i].0, #[trigger] labels[j].0)
}

/// `map` holds each key of `labels` once, ascending, with the value that the
/// key was given last.
pub open spec fn is_label_map(
    map: Seq<(Seq<char>, Seq<char>)>,
    labels: Seq<(Seq<char>, Seq<char>)>,
) -> bool {
    &&& keys_ascending(map)
    &&& forall|i: int| 0 <= i < map.len() ==> last_value(labels, (#[trigger] map[i]).0) == Some(map[i].1)
    &&& forall|k: Seq<char>|
        #[trigger] last_value(labels, k) is Some ==> exists|i: int| 0 <= i < map.len() && map[i].0 == k
}

/// The labels as a map from key to value, ascending by key; of repeated keys the last value wins.
pub fn labels_of(labels: &Vec<Label>) -> (r: Vec<Label>)
    ensures
        is_label_map(label_views(r@), label_views(labels@)),
{
    let ghost all = label_views(labels@);
    let mut out: Vec<Label> = Vec::new();
    let mut i: usize = 0;
    while i < labels.len()
        invariant
            i <= labels@.len(),
            all == label_views(labels@),
            is_label_map(label_views(out@), all.take(i as int)),
        decreases labels@.len() - i,
    {
        let ghost cur = all.take(i as int);
        let ghost next = all.take(i + 1);
        let ghost prev = label_views(out@);
        assert(next.drop_last() =~= cur);
        assert(next.last() == labels@[i as int]@);
        let l = labels[i].duplicate();
        let ghost lv = l@;
        let mut p: usize = 0;
        while p < out.len() && compare_keys(out[p].0.as_str(), l.0.as_str()) < 0
            invariant
                p <= out@.len(),
                prev == label_views(out@),
                lv == l@,
                forall|q: int| 0 <= q < p ==> key_lt(#[trigger] prev[q].0, lv.0),
            decreases out@.len() - p,
        {
            assert(prev[p as int] == out@[p as int]@);
            p = p + 1;
        }
        let same = p < out.len() && compare_keys(out[p].0.as_str(), l.0.as_str()) == 0;
        proof {
            if p < prev.len() {
                assert(prev[p as int] == out@[p as int]@);
                crate::order::lemma_key_lt_total(prev[p as int].0, lv.0);
            }
        }
        if same {
            out.set(p, l);
            proof {
                let now = label_views(out@);
                assert(now =~= prev.update(p as int, lv));
                assert(is_label_map(now, next)) by {
                    assert forall|a: int| 0 <= a < now.len() implies last_value(
                        next,
                        (#[trigger] now[a]).0,
                    ) == Some(now[a].1) by {
                        if a != p {
                            assert(prev[a].0 != lv.0) by {
                                if a < p {
                                    crate::order::lemma_key_lt_irreflexive(lv.0);
                                } else {
                                    crate::order::lemma_key_lt_irreflexive(prev[a].0);
                                }
                            }
                        }
                    }
                    assert forall|k: Seq<char>| #[trigger] last_value(next, k) is Some implies exists|
                        a: int,
                    | 0 <= a < now.len() && now[a].0 == k by {
                        if k == lv.0 {
                            assert(now[p as int].0 == k);
                        } else {
                            assert(last_value(cur, k) == last_value(next, k));
                            let a = choose|a: int| 0 <= a < prev.len() && prev[a].0 == k;
                            assert(now[a].0 == k);
                        }
                    }
                }
            }
        } else {
            out.insert(p, l);
            proof {
                let now = label_views(out@);
                assert(now =~= prev.insert(p as int, lv));
                assert(last_value(cur, lv.0) is None) by {
                    if last_value(cur, lv.0) is Some {
                        let a = choose|a: int| 0 <= a < prev.len() && prev[a].0 == lv.0;
                        if a < p {
                            crate::order::lemma_key_lt_irreflexive(lv.0);
                        } else if a == p {
                        } else {
                            crate::order::lemma_key_lt_transitive(lv.0, prev[p as int].0, prev[a].0);
                            crate::order::lemma_key_lt_irreflexive(lv.0);
                        }
                    }
                }
                assert forall|a: int, b: int| 0 <= a < b < now.len() implies key_lt(
                    #[trigger] now[a].0,
                    #[trigger] now[b].0,
                ) by {
                    if b == p {
                    } else if a == p {
                        if b - 1 > p {
                            crate::order::lemma_key_lt_transitive(lv.0, prev[p as int].0, prev[b - 1].0);
                        }
                    } else if b < p {
                    } else if a < p {
                        assert(now[b] == prev[b - 1]);
                    } else {
                        assert(now[a] == prev[a - 1]);
                        assert(now[b] == prev[b - 1]);
                    }
                }
                assert forall|a: int| 0 <= a < now.len() implies last_value(
                    next,
                    (#[trigger] now[a]).0,
                ) == Some(now[a].1) by {
                    if a != p {
                        let a0 = if a < p { a } else { a - 1 };
                        assert(now[a] == prev[a0]);
                        assert(last_value(cur, prev[a0].0) is Some);
                    }
                }
                assert forall|k: Seq<char>| #[trigger] last_value(next, k) is Some implies exists|
                    a: int,
                | 0 <= a < now.len() && now[a].0 == k by {
                    if k == lv.0 {
                        assert(now[p as int].0 == k);
                    } else {
                        assert(last_value(cur, k) == last_value(next, k));
                        let a = choose|a: int| 0 <= a < prev.len() && prev[a].0 == k;
                        if a < p {
                            assert(now[a].0 == k);
                        } else {
                            assert(now[a + 1].0 == k);
                        }
                    }
                }
            }
        }
        i = i + 1;
    }
    assert(all.take(i as int) =~= all);
    out
}

/// Labels read as a selector text or as a map.
pub trait LabelSelector {
    /// The labels as `key=value` texts joined by commas.
    fn selector(&self) -> String;

    /// The labels as a map from key to value, ascending by key.
    fn labels(&self) -> Vec<Label>;
}

impl LabelSelector for Vec<Label> {
    fn selector(&self) -> String {
        selector_of(self)
    }

    fn labels(&self) -> Vec<Label> {
        labels_of(self)
    }
}

} // verus!
