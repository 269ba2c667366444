//! A scrollback search: whether a session carries it out, and which of what it found is
//! worth showing.

use vstd::prelude::*;

use crate::actor::SessionActor;
use crate::ids::SessionId;
use crate::text::is_blank;

verus! {

/// A line of the scrollback that matched, with nothing in it the wire refuses.
#[derive(Debug)]
pub struct SearchHit {
    /// How many lines above the newest it stands.
    pub distance: u32,
    pub line: String,
}

/// A line found, and where.
#[derive(Debug)]
pub struct SearchMatch {
    pub session: SessionId,
    pub distance: u32,
    pub line: String,
}

/// What a session does with a search.
#[derive(Clone, Copy, Debug, PartialEq, Eq, Structural)]
pub enum SearchStep {
    /// Nobody is left to read the answer: the asker's deadline bounds the work rather than
    /// merely racing it.
    Drop,
    /// No emulator is no scrollback, which is a search over nothing.
    AnswerNothing,
    /// Search the emulator's scrollback.
    Ask,
}

/// `hit` shows something: a character of it is not white space.
pub open spec fn shows(hit: SearchHit) -> bool {
    !crate::text::blank(hit.line@)
}

/// `found` is `hit`, in the session it was found in.
pub open spec fn found_in(found: SearchMatch, session: SessionId, hit: SearchHit) -> bool {
    found.session == session && found.distance == hit.distance && found.line@ == hit.line@
}

/// `matches` are `hits` in order, in the session they were found in.
pub open spec fn all_found_in(matches: Seq<SearchMatch>, session: SessionId, hits: Seq<SearchHit>) -> bool {
    &&& matches.len() == hits.len()
    &&& forall|i: int| 0 <= i < matches.len() ==> found_in(#[trigger] matches[i], session, hits[i])
}

/// What a session that was searched answers: what its emulator found, short of the lines
/// that show nothing. A search that failed found nothing.
pub fn shown(session: SessionId, found: Option<Vec<SearchHit>>) -> (matches: Vec<SearchMatch>)
    ensures
        found is None ==> matches@.len() == 0,
        found matches Some(hits) ==> all_found_in(matches@, session, hits@.filter(|hit: SearchHit| shows(hit))),
{
    let mut matches: Vec<SearchMatch> = Vec::new();
    let mut hits = match found {
        Some(hits) => hits,
        None => return matches,
    };
    let ghost all = hits@;
    let ghost keep = |hit: SearchHit| shows(hit);
    proof {
        reveal(Seq::filter);
        assert(all.take(0).filter(keep) =~= Seq::empty());
    }
    let mut at: usize = 0;
    while at < hits.len()
        invariant
            at <= hits@.len(),
            hits@.len() == all.len(),
            keep == (|hit: SearchHit| shows(hit)),
            forall|i: int| at <= i < hits@.len() ==> hits@[i] == all[i],
            all_found_in(matches@, session, all.take(at as int).filter(keep)),
        decreases hits@.len() - at,
    {
        let ghost hit = all[at as int];
        let ghost before = all.take(at as int).filter(keep);
        let worth = !is_blank(hits[at].line.as_str());
        proof {
            reveal(Seq::filter);
            assert(all.take(at + 1).drop_last() =~= all.take(at as int));
            assert(all.take(at + 1).last() == hit);
            assert(worth == keep(hit));
        }
        if worth {
            let mut line = String::new();
            core::mem::swap(&mut line, &mut hits[at].line);
            matches.push(SearchMatch { session, distance: hits[at].distance, line });
        }
        at = at + 1;
    }
    assert(all.take(at as int) =~= all);
    matches
}

impl<F> SessionActor<F> {
    /// Whether a search that arrived at `now` is carried out, with the deadline it carries.
    pub fn search(&self, deadline: u64, now: u64) -> (step: SearchStep)
        ensures
            step == (if now >= deadline {
                SearchStep::Drop
            } else if self@.terminal is None {
                SearchStep::AnswerNothing
            } else {
                SearchStep::Ask
            }),
    {
        if now >= deadline {
            SearchStep::Drop
        } else if self.terminal.is_none() {
            SearchStep::AnswerNothing
        } else {
            SearchStep::Ask
        }
    }
}

/// A line is worth showing where some character of it is not white space.
pub proof fn a_line_is_shown_where_something_is_on_it(hit: SearchHit)
    ensures
        shows(hit) <==> exists|i: int| 0 <= i < hit.line@.len() && !crate::text::white(#[trigger] hit.line@[i]),
{
}

/// What was found is told with the session it was found in, how far up it stands and the line
/// itself, in the order it was found.
pub proof fn what_was_found_is_told_as_it_stands(matches: Seq<SearchMatch>, session: SessionId, hits: Seq<SearchHit>, i: int)
    requires
        all_found_in(matches, session, hits),
        0 <= i < hits.len(),
    ensures
        matches.len() == hits.len(),
        matches[i].session == session,
        matches[i].distance == hits[i].distance,
        matches[i].line@ == hits[i].line@,
{
    assert(found_in(matches[i], session, hits[i]));
}

} // verus!
