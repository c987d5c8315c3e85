//! The parser: one input line to a flat list of commands.
//!
//! A line is cut at `;`, each piece at `&&`, and each of those, once trimmed,
//! at ` & `: every piece before the last runs in the background, and so does
//! the last one when it ends in `&`. A piece is a chain of alternatives joined
//! by `||`, each a program followed by its arguments. Pieces and alternatives
//! without a word are dropped.
use crate::split::{
    lemma_split_nonempty, split_on, split_str, split_words, trim, trim_str, views, words,
};
use vstd::prelude::*;
use vstd::string::*;

verus! {

/// One parsed command: a program with its arguments, the command tried when
/// it fails (`||`), and whether it runs in the background.
#[derive(Debug, PartialEq, Eq)]
pub struct Tokens {
    pub main_com: String,
    pub args: Vec<String>,
    pub or_com: Option<Box<Tokens>>,
    pub in_background: bool,
}

/// One link of a command's fallback chain, as plain values.
pub struct Link {
    pub program: Seq<char>,
    pub args: Seq<Seq<char>>,
    pub background: bool,
}

impl Tokens {
    /// This command alone, without its fallback.
    pub open spec fn link(&self) -> Link {
        Link { program: self.main_com@, args: views(self.args@), background: self.in_background }
    }

    /// The whole chain: this command, then its fallback's chain.
    pub open spec fn chain(&self) -> Seq<Link>
        decreases self,
    {
        match self.or_com {
            Some(next) => seq![self.link()] + next.chain(),
            None => seq![self.link()],
        }
    }
}

/// The chains of a list of commands.
pub open spec fn chains(v: Seq<Tokens>) -> Seq<Seq<Link>> {
    v.map_values(|t: Tokens| t.chain())
}

pub open spec fn or_sep() -> Seq<char> {
    seq!['|', '|']
}

pub open spec fn and_sep() -> Seq<char> {
    seq!['&', '&']
}

pub open spec fn list_sep() -> Seq<char> {
    seq![';']
}

pub open spec fn background_sep() -> Seq<char> {
    seq![' ', '&', ' ']
}

/// The link that the text of one alternative describes: its first word is the
/// program, the other words are the arguments.
pub open spec fn link_of(alt: Seq<char>, background: bool) -> Link {
    Link { program: words(alt)[0], args: words(alt).drop_first(), background }
}

pub open spec fn has_words(alt: Seq<char>) -> bool {
    words(alt).len() > 0
}

/// The alternatives of a piece that hold a word, in order.
pub open spec fn alternatives(piece: Seq<char>) -> Seq<Seq<char>> {
    split_on(piece, or_sep()).filter(|a: Seq<char>| has_words(a))
}

/// The chain of links of a piece.
pub open spec fn chain_of(piece: Seq<char>, background: bool) -> Seq<Link> {
    alternatives(piece).map_values(|a: Seq<char>| link_of(a, background))
}

/// The commands of one piece: none where it holds no word, else one.
pub open spec fn command_model(piece: Seq<char>, background: bool) -> Seq<Seq<Link>> {
    if alternatives(piece).len() == 0 {
        seq![]
    } else {
        seq![chain_of(piece, background)]
    }
}

/// Whether the last piece of a conjunct asks for the background.
pub open spec fn ends_with_amp(p: Seq<char>) -> bool {
    p.len() > 0 && p.last() == '&'
}

/// The commands of the last piece of a conjunct.
pub open spec fn last_piece_model(p: Seq<char>) -> Seq<Seq<Link>> {
    if ends_with_amp(p) {
        command_model(p.drop_last(), true)
    } else {
        command_model(p, false)
    }
}

/// The commands of a conjunct: the text between two `&&`.
pub open spec fn conjunct_model(d: Seq<char>) -> Seq<Seq<Link>> {
    let ps = split_on(trim(d), background_sep());
    ps.drop_last().map_values(|p: Seq<char>| command_model(p, true)).flatten() + last_piece_model(
        ps.last(),
    )
}

/// The commands of a segment: the text between two `;`.
pub open spec fn segment_model(a: Seq<char>) -> Seq<Seq<Link>> {
    split_on(a, and_sep()).map_values(|d: Seq<char>| conjunct_model(d)).flatten()
}

/// The flat list of commands that a line describes.
pub open spec fn parse(line: Seq<char>) -> Seq<Seq<Link>> {
    split_on(line, list_sep()).map_values(|a: Seq<char>| segment_model(a)).flatten()
}

/// Parsing depends on the text of the line alone: equal lines give equal
/// command lists.
pub proof fn lemma_parse_deterministic(a: Seq<char>, b: Seq<char>)
    requires
        a == b,
    ensures
        parse(a) == parse(b),
{
}

proof fn lemma_chains_push(v: Seq<Tokens>, t: Tokens)
    ensures
        chains(v.push(t)) == chains(v).push(t.chain()),
{
    assert(chains(v.push(t)) =~= chains(v).push(t.chain()));
}

proof fn lemma_flatten_step<A>(ps: Seq<A>, k: int, f: spec_fn(A) -> Seq<Seq<Link>>)
    requires
        0 <= k < ps.len(),
    ensures
        ps.take(k + 1).map_values(f).flatten() == ps.take(k).map_values(f).flatten() + f(ps[k]),
{
    assert(ps.take(k + 1).map_values(f) =~= ps.take(k).map_values(f).push(f(ps[k])));
    ps.take(k).map_values(f).lemma_flatten_push(f(ps[k]));
}

/// Builds the command of one piece, or none where it holds no word.
fn command_from(piece: &str, in_background: bool) -> (r: Option<Tokens>)
    ensures
        command_model(piece@, in_background) == match r {
            Some(t) => seq![t.chain()],
            None => seq![],
        },
{
    let sep = "||";
    proof {
        reveal_strlit("||");
        assert(sep@ =~= or_sep());
    }
    let alts = split_str(piece, sep);
    let ghost all = split_on(piece@, or_sep());
    let ghost pred = |a: Seq<char>| has_words(a);
    // the words of each alternative that holds any
    let mut kept: Vec<Vec<String>> = Vec::new();
    let mut i: usize = 0;
    while i < alts.len()
        invariant
            views(alts@) == all,
            all == split_on(piece@, or_sep()),
            pred == (|a: Seq<char>| has_words(a)),
            i <= alts.len(),
            kept@.len() == all.take(i as int).filter(pred).len(),
            forall|k: int|
                0 <= k < kept@.len() ==> views(#[trigger] kept@[k]@) == words(
                    all.take(i as int).filter(pred)[k],
                ),
        decreases alts.len() - i,
    {
        let w = split_words(alts[i].as_str());
        proof {
            assert(all.take(i + 1) =~= all.take(i as int).push(all[i as int]));
            all.take(i as int).lemma_filter_push(all[i as int], pred);
        }
        if w.len() > 0 {
            kept.push(w);
        }
        i = i + 1;
    }
    assert(all.take(i as int) =~= all);
    let ghost alts_kept = alternatives(piece@);
    let ghost links = chain_of(piece@, in_background);
    let total = kept.len();
    let mut chain: Option<Tokens> = None;
    while kept.len() > 0
        invariant
            alts_kept == alternatives(piece@),
            links == chain_of(piece@, in_background),
            total == alts_kept.len(),
            kept@.len() <= total,
            forall|k: int|
                0 <= k < kept@.len() ==> views(#[trigger] kept@[k]@) == words(alts_kept[k]),
            match chain {
                Some(t) => kept@.len() < total && t.chain() == links.skip(kept@.len() as int),
                None => kept@.len() == total,
            },
        decreases kept@.len(),
    {
        let mut w = kept.pop().unwrap();
        let ghost k = kept@.len() as int;
        assert(views(w@) == words(alts_kept[k]));
        assert(w@.len() > 0) by {
            split_on(piece@, or_sep()).lemma_filter_pred(|a: Seq<char>| has_words(a), k);
        }
        let main_com = w.remove(0);
        let t = Tokens {
            main_com,
            args: w,
            or_com: match chain {
                Some(next) => Some(Box::new(next)),
                None => None,
            },
            in_background,
        };
        assert(views(t.args@) =~= words(alts_kept[k]).drop_first());
        assert(t.link() == links[k]);
        assert(t.chain() =~= links.skip(k));
        chain = Some(t);
    }
    assert(links.skip(0) =~= links);
    chain
}

impl Tokens {
    /// The command that the text of one piece describes, running in the
    /// background or not. Its alternatives are cut at `||`; each is a program
    /// followed by its arguments, and those without a word are left out.
    pub fn new(command: &str, in_background: bool) -> (r: Tokens)
        requires
            alternatives(command@).len() > 0,
        ensures
            r.chain() == chain_of(command@, in_background),
    {
        let c = command_from(command, in_background);
        assert(command_model(command@, in_background)[0] == chain_of(command@, in_background));
        assert(c is Some) by {
            if c is None {
                assert(command_model(command@, in_background).len() == 1);
            }
        }
        let t = c.unwrap();
        assert(seq![t.chain()][0] == t.chain());
        t
    }
}

/// Appends to `out` the commands of one conjunct.
fn push_conjunct(out: &mut Vec<Tokens>, d: &str)
    ensures
        chains(final(out)@) == chains(old(out)@) + conjunct_model(d@),
{
    let t = trim_str(d);
    let sep = " & ";
    proof {
        reveal_strlit(" & ");
        assert(sep@ =~= background_sep());
        lemma_split_nonempty(trim(d@), background_sep());
    }
    let ps = split_str(t, sep);
    let ghost all = split_on(trim(d@), background_sep());
    let ghost f = |p: Seq<char>| command_model(p, true);
    let ghost start = chains(out@);
    let last = ps.len() - 1;
    let mut k: usize = 0;
    while k < last
        invariant
            views(ps@) == all,
            f == (|p: Seq<char>| command_model(p, true)),
            last + 1 == ps.len(),
            k <= last,
            chains(out@) == start + all.take(k as int).map_values(f).flatten(),
        decreases last - k,
    {
        let c = command_from(ps[k].as_str(), true);
        proof {
            assert(ps@[k as int]@ == all[k as int]);
            lemma_flatten_step(all, k as int, f);
        }
        match c {
            Some(t) => {
                proof {
                    lemma_chains_push(out@, t);
                }
                out.push(t);
                assert(chains(out@) =~= start + all.take(k + 1).map_values(f).flatten());
            },
            None => {
                assert(chains(out@) =~= start + all.take(k + 1).map_values(f).flatten());
            },
        }
        k = k + 1;
    }
    assert(all.take(last as int) =~= all.drop_last());
    let p = ps[last].as_str();
    assert(p@ == all.last());
    let n = p.unicode_len();
    let c = if n > 0 && p.get_char(n - 1) == '&' {
        assert(p@.subrange(0, n - 1) =~= p@.drop_last());
        command_from(p.substring_char(0, n - 1), true)
    } else {
        command_from(p, false)
    };
    match c {
        Some(t) => {
            proof {
                lemma_chains_push(out@, t);
            }
            out.push(t);
        },
        None => {},
    }
    assert(chains(out@) =~= start + conjunct_model(d@));
}

/// Appends to `out` the commands of one segment.
fn push_segment(out: &mut Vec<Tokens>, a: &str)
    ensures
        chains(final(out)@) == chains(old(out)@) + segment_model(a@),
{
    let sep = "&&";
    proof {
        reveal_strlit("&&");
        assert(sep@ =~= and_sep());
    }
    let ds = split_str(a, sep);
    let ghost all = split_on(a@, and_sep());
    let ghost f = |d: Seq<char>| conjunct_model(d);
    let ghost start = chains(out@);
    let mut k: usize = 0;
    while k < ds.len()
        invariant
            views(ds@) == all,
            f == (|d: Seq<char>| conjunct_model(d)),
            k <= ds.len(),
            chains(out@) == start + all.take(k as int).map_values(f).flatten(),
        decreases ds.len() - k,
    {
        proof {
            assert(ds@[k as int]@ == all[k as int]);
            lemma_flatten_step(all, k as int, f);
        }
        push_conjunct(out, ds[k].as_str());
        assert(chains(out@) =~= start + all.take(k + 1).map_values(f).flatten());
        k = k + 1;
    }
    assert(all.take(k as int) =~= all);
}

/// Parses one input line into the flat list of its commands, in the order in
/// which they are to run.
pub fn tokenize_commands(command_string: &str) -> (r: Vec<Tokens>)
    ensures
        chains(r@) == parse(command_string@),
{
    let sep = ";";
    proof {
        reveal_strlit(";");
        assert(sep@ =~= list_sep());
    }
    let segs = split_str(command_string, sep);
    let ghost all = split_on(command_string@, list_sep());
    let ghost f = |a: Seq<char>| segment_model(a);
    let mut commands: Vec<Tokens> = Vec::new();
    let mut k: usize = 0;
    assert(chains(commands@) =~= all.take(0).map_values(f).flatten());
    while k < segs.len()
        invariant
            views(segs@) == all,
            f == (|a: Seq<char>| segment_model(a)),
            k <= segs.len(),
            chains(commands@) == all.take(k as int).map_values(f).flatten(),
        decreases segs.len() - k,
    {
        proof {
            assert(segs@[k as int]@ == all[k as int]);
            lemma_flatten_step(all, k as int, f);
        }
        push_segment(&mut commands, segs[k].as_str());
        k = k + 1;
    }
    assert(all.take(k as int) =~= all);
    commands
}

} // verus!
