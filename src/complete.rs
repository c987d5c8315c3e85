//! Completion of the line being typed from earlier lines of the history.
use vstd::prelude::*;
use vstd::string::*;

verus! {

/// One proposed completion: the whole history line that is shown, and the
/// text that is inserted at the cursor.
#[derive(Debug, PartialEq, Eq)]
pub struct Completion {
    pub display: String,
    pub replacement: String,
}

/// A history line completes `line` when it starts with it and is longer.
pub open spec fn completes(entry: Seq<char>, line: Seq<char>) -> bool {
    line.is_prefix_of(entry) && entry != line
}

/// The history lines that complete `line`, oldest first.
pub open spec fn matching_entries(history: Seq<Seq<char>>, line: Seq<char>) -> Seq<Seq<char>> {
    history.filter(|h: Seq<char>| completes(h, line))
}

/// What is inserted for `entry` with the cursor at `pos`: the rest of the
/// entry behind the cursor, and a space after it where it is the only
/// completion.
pub open spec fn replacement_of(entry: Seq<char>, pos: int, only: bool) -> Seq<char> {
    if only {
        entry.skip(pos) + seq![' ']
    } else {
        entry.skip(pos)
    }
}

/// Whether `p` is a prefix of `s`.
pub fn starts_with(s: &str, p: &str) -> (r: bool)
    ensures
        r == p@.is_prefix_of(s@),
{
    let n = s.unicode_len();
    let m = p.unicode_len();
    if m > n {
        return false;
    }
    let mut j: usize = 0;
    while j < m
        invariant
            n == s@.len(),
            m == p@.len(),
            m <= n,
            j <= m,
            forall|k: int| 0 <= k < j ==> s@[k] == p@[k],
        decreases m - j,
    {
        if s.get_char(j) != p.get_char(j) {
            return false;
        }
        j = j + 1;
    }
    true
}

/// The completions that the history offers for `line` with the cursor at
/// character `pos`: one for each entry that starts with `line` and is longer,
/// in history order.
pub fn history_completions(history: &Vec<String>, line: &str, pos: usize) -> (r: Vec<Completion>)
    requires
        pos <= line@.len(),
    ensures
        r@.len() == matching_entries(history@.map_values(|h: String| h@), line@).len(),
        forall|i: int|
            0 <= i < r@.len() ==> {
                let m = matching_entries(history@.map_values(|h: String| h@), line@);
                &&& (#[trigger] r@[i]).display@ == m[i]
                &&& r@[i].replacement@ == replacement_of(m[i], pos as int, m.len() == 1)
            },
{
    let ghost all = history@.map_values(|h: String| h@);
    let ghost pred = |h: Seq<char>| completes(h, line@);
    let mut found: Vec<&String> = Vec::new();
    let mut i: usize = 0;
    while i < history.len()
        invariant
            all == history@.map_values(|h: String| h@),
            pred == (|h: Seq<char>| completes(h, line@)),
            i <= history.len(),
            found@.len() == all.take(i as int).filter(pred).len(),
            forall|k: int|
                0 <= k < found@.len() ==> (#[trigger] found@[k])@ == all.take(i as int).filter(
                    pred,
                )[k],
        decreases history.len() - i,
    {
        let h = &history[i];
        proof {
            assert(all.take(i + 1) =~= all.take(i as int).push(all[i as int]));
            all.take(i as int).lemma_filter_push(all[i as int], pred);
        }
        if starts_with(h.as_str(), line) && h.unicode_len() != line.unicode_len() {
            found.push(h);
        } else {
            assert(!completes(h@, line@)) by {
                if line@.is_prefix_of(h@) && h@.len() == line@.len() {
                    assert(h@ =~= line@);
                }
            }
        }
        i = i + 1;
    }
    assert(all.take(i as int) =~= all);
    let ghost m = matching_entries(all, line@);
    let only = found.len() == 1;
    let mut out: Vec<Completion> = Vec::new();
    let mut k: usize = 0;
    while k < found.len()
        invariant
            m == matching_entries(all, line@),
            pred == (|h: Seq<char>| completes(h, line@)),
            m == all.filter(pred),
            found@.len() == m.len(),
            forall|j: int| 0 <= j < found@.len() ==> (#[trigger] found@[j])@ == m[j],
            only == (m.len() == 1),
            pos <= line@.len(),
            k <= found.len(),
            out@.len() == k,
            forall|j: int|
                0 <= j < k ==> {
                    &&& (#[trigger] out@[j]).display@ == m[j]
                    &&& out@[j].replacement@ == replacement_of(m[j], pos as int, only)
                },
        decreases found.len() - k,
    {
        let h = found[k];
        assert(completes(h@, line@)) by {
            all.lemma_filter_pred(pred, k as int);
        }
        let rest = h.as_str().substring_char(pos, h.unicode_len());
        let replacement = if only {
            let r = rest.to_owned().concat(" ");
            proof {
                reveal_strlit(" ");
            }
            r
        } else {
            rest.to_owned()
        };
        assert(replacement@ =~= replacement_of(m[k as int], pos as int, only));
        out.push(Completion { display: h.clone(), replacement });
        k = k + 1;
    }
    out
}

} // verus!
