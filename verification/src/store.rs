use crate::decimal::{
    avg_of_sum, is_truncated_mean, lemma_pow10_mono, lemma_pow10_pos, lemma_pow10_values, pow10,
    pow10_exec, Decimal, MAX_AGGREGATE_ROWS, MAX_SCALED_SCORE, MAX_SCORE_SCALE,
};
use crate::entities::{matches_new, Event, Match, MatchDesc, NewRating, Rating};
use crate::errors::Error;
use crate::filtering::{
    lemma_filter_membership, lemma_filter_none, lemma_filter_sorted_desc, lemma_filter_take_step,
    lemma_first_match, lemma_take_all, sorted_desc_by,
};
use crate::language::Language;
use crate::pagination::{
    page_items, paginate, total_pages_of, Page, ITEMS_PER_PAGE,
};
use vstd::prelude::*;

verus! {

/// The abstract state of the relational store: one row sequence per table,
/// plus the identifier the next accepted rating will receive.
pub struct StoreModel {
    pub events: Seq<Event>,
    pub matches: Seq<Match>,
    pub match_descs: Seq<MatchDesc>,
    pub ratings: Seq<Rating>,
    pub next_rating_id: int,
}

impl StoreModel {
    /// The events carrying the given identifier, in stored order.
    pub open spec fn events_with_id(self, event_id: i32) -> Seq<Event> {
        self.events.filter(|e: Event| e.spec_id() == event_id)
    }

    /// The matches carrying the given identifier, in stored order.
    pub open spec fn matches_with_id(self, match_id: i32) -> Seq<Match> {
        self.matches.filter(|m: Match| m.spec_id() == match_id)
    }

    /// The card of an event: its matches, in stored order.
    pub open spec fn matches_for_event(self, event_id: i32) -> Seq<Match> {
        self.matches.filter(|m: Match| m.spec_event_id() == event_id)
    }

    /// The descriptions of a match in one language, in stored order.
    pub open spec fn descs_for(self, match_id: i32, lang: Language) -> Seq<MatchDesc> {
        self.match_descs.filter(
            |d: MatchDesc| d.spec_match_id() == match_id && d.spec_language_code() == lang,
        )
    }

    /// Whether the match belongs to the event.
    pub open spec fn match_belongs_to_event(self, match_id: i32, event_id: i32) -> bool {
        exists|k: int|
            0 <= k < self.matches.len() && (#[trigger] self.matches[k]).spec_id() == match_id
                && self.matches[k].spec_event_id() == event_id
    }

    /// All ratings written in one language, newest first.
    pub open spec fn ratings_with_language(self, lang: Language) -> Seq<Rating> {
        self.ratings.filter(|r: Rating| r.spec_language_code() == lang)
    }

    /// The ratings of one match in one language, newest first.
    pub open spec fn ratings_for_match(self, match_id: i32, lang: Language) -> Seq<Rating> {
        self.ratings.filter(
            |r: Rating| r.spec_match_id() == match_id && r.spec_language_code() == lang,
        )
    }

    /// The ratings of every match of an event in one language, newest
    /// first.
    pub open spec fn ratings_for_event(self, event_id: i32, lang: Language) -> Seq<Rating> {
        self.ratings.filter(
            |r: Rating| self.match_belongs_to_event(r.spec_match_id(), event_id)
                && r.spec_language_code() == lang,
        )
    }

    /// The ratings of one match in every language; averages run over these.
    pub open spec fn match_ratings_all(self, match_id: i32) -> Seq<Rating> {
        self.ratings.filter(|r: Rating| r.spec_match_id() == match_id)
    }

    /// The ratings of every match of an event, in every language.
    pub open spec fn event_ratings_all(self, event_id: i32) -> Seq<Rating> {
        self.ratings.filter(
            |r: Rating| self.match_belongs_to_event(r.spec_match_id(), event_id),
        )
    }

    /// Whether the user has already rated the match.
    pub open spec fn has_rating_for(self, match_id: i32, username: Seq<char>) -> bool {
        exists|k: int|
            0 <= k < self.ratings.len() && (#[trigger] self.ratings[k]).spec_match_id()
                == match_id && self.ratings[k].spec_username() == username
    }

    /// The store's standing invariant: events newest first, ratings newest
    /// first, every stored score inside the score envelope, at most one
    /// rating per user per match, tables small enough for the page and
    /// aggregate arithmetic, and every assigned rating identifier below the
    /// next one.
    pub open spec fn wf(self) -> bool {
        &&& sorted_desc_by(self.events, |e: Event| e.spec_date() as int)
        &&& sorted_desc_by(self.ratings, |r: Rating| r.spec_publication_date() as int)
        &&& self.events.len() <= MAX_AGGREGATE_ROWS as int
        &&& self.ratings.len() <= MAX_AGGREGATE_ROWS as int
        &&& forall|k: int|
            0 <= k < self.ratings.len() ==> (#[trigger] self.ratings[k]).spec_score().score_wf()
        &&& forall|i: int, j: int|
            #![trigger self.ratings[i], self.ratings[j]]
            0 <= i < j < self.ratings.len() ==> !(self.ratings[i].spec_match_id()
                == self.ratings[j].spec_match_id() && self.ratings[i].spec_username()
                == self.ratings[j].spec_username())
        &&& forall|k: int|
            0 <= k < self.ratings.len() ==> (#[trigger] self.ratings[k]).spec_id()
                < self.next_rating_id
        &&& 0 <= self.next_rating_id <= i32::MAX as int
    }
}

/// The relational store the repository operations run against: the five
/// catalog tables held as ordered rows.  Language-typed columns hold
/// decoded language values; the codec translates at the boundary, so wire
/// and storage form can never drift apart.
pub struct Database {
    events: Vec<Event>,
    matches: Vec<Match>,
    match_descs: Vec<MatchDesc>,
    ratings: Vec<Rating>,
    next_rating_id: i32,
}

impl View for Database {
    type V = StoreModel;

    closed spec fn view(&self) -> StoreModel {
        StoreModel {
            events: self.events@,
            matches: self.matches@,
            match_descs: self.match_descs@,
            ratings: self.ratings@,
            next_rating_id: self.next_rating_id as int,
        }
    }
}

impl Database {
    /// An empty store.
    pub fn new() -> (r: Database)
        ensures
            r@.wf(),
            r@.events.len() == 0,
            r@.matches.len() == 0,
            r@.match_descs.len() == 0,
            r@.ratings.len() == 0,
            r@.next_rating_id == 1,
    {
        Database {
            events: Vec::new(),
            matches: Vec::new(),
            match_descs: Vec::new(),
            ratings: Vec::new(),
            next_rating_id: 1,
        }
    }

    /// Seeds one event, keeping the table ordered newest first.  Events are
    /// created out of band and read-only at run time.
    #[verifier::loop_isolation(false)]
    pub fn add_event(&mut self, event: Event)
        requires
            old(self)@.wf(),
            old(self)@.events.len() < MAX_AGGREGATE_ROWS as int,
        ensures
            final(self)@.wf(),
            exists|j: int|
                0 <= j <= old(self)@.events.len() && final(self)@.events == old(self)@.events.insert(
                    j,
                    event,
                ),
            final(self)@.matches == old(self)@.matches,
            final(self)@.match_descs == old(self)@.match_descs,
            final(self)@.ratings == old(self)@.ratings,
            final(self)@.next_rating_id == old(self)@.next_rating_id,
    {
        let ghost evs = self@.events;
        let mut idx: usize = 0;
        while idx < self.events.len() && self.events[idx].date() > event.date()
            invariant
                idx <= self@.events.len(),
                self@.events == evs,
                forall|k: int|
                    0 <= k < idx ==> (#[trigger] self@.events[k]).spec_date()
                        > event.spec_date(),
            decreases self@.events.len() - idx,
        {
            idx = idx + 1;
        }
        self.events.insert(idx, event);
        proof {
            evs.insert_ensures(idx as int, event);
            let key = |e: Event| e.spec_date() as int;
            assert forall|i: int, j: int| 0 <= i < j < self@.events.len() implies key(
                #[trigger] self@.events[i],
            ) >= key(#[trigger] self@.events[j]) by {
                if j < idx {
                    assert(self@.events[i] == evs[i] && self@.events[j] == evs[j]);
                } else if j == idx {
                    assert(self@.events[i] == evs[i]);
                } else {
                    assert(self@.events[j] == evs[j - 1]);
                    if i < idx {
                        assert(self@.events[i] == evs[i]);
                        if i < j - 1 {
                        } else {
                        }
                    } else if i == idx {
                        assert(idx < evs.len());
                        assert(key(evs[idx as int]) <= key(event)) by {
                            assert(!(evs[idx as int].spec_date() > event.spec_date()));
                        }
                    } else {
                        assert(self@.events[i] == evs[i - 1]);
                    }
                }
            }
            assert(0 <= idx as int <= evs.len() && self@.events == evs.insert(
                idx as int,
                event,
            ));
        }
    }

    /// Seeds one match onto an event's card.
    pub fn add_match(&mut self, m: Match)
        requires
            old(self)@.wf(),
        ensures
            final(self)@.wf(),
            final(self)@.matches == old(self)@.matches.push(m),
            final(self)@.events == old(self)@.events,
            final(self)@.match_descs == old(self)@.match_descs,
            final(self)@.ratings == old(self)@.ratings,
            final(self)@.next_rating_id == old(self)@.next_rating_id,
    {
        self.matches.push(m);
    }

    /// Seeds one localized description of a match.
    pub fn add_match_desc(&mut self, desc: MatchDesc)
        requires
            old(self)@.wf(),
        ensures
            final(self)@.wf(),
            final(self)@.match_descs == old(self)@.match_descs.push(desc),
            final(self)@.events == old(self)@.events,
            final(self)@.matches == old(self)@.matches,
            final(self)@.ratings == old(self)@.ratings,
            final(self)@.next_rating_id == old(self)@.next_rating_id,
    {
        self.match_descs.push(desc);
    }

    /// Looks one event up by identifier.  The first stored row with that
    /// identifier is returned; zero matching rows is `ResourceDoesNotExists`,
    /// never a generic failure.
    #[verifier::loop_isolation(false)]
    pub fn get_event_by(&self, event_id: i32) -> (r: Result<Event, Error>)
        ensures
            self@.events_with_id(event_id).len() == 0 ==> r == Err::<Event, Error>(
                Error::ResourceDoesNotExists,
            ),
            self@.events_with_id(event_id).len() > 0 ==> r == Ok::<Event, Error>(
                self@.events_with_id(event_id)[0],
            ),
    {
        let ghost pred = |e: Event| e.spec_id() == event_id;
        let mut i: usize = 0;
        while i < self.events.len()
            invariant
                i <= self@.events.len(),
                forall|k: int| 0 <= k < i ==> !pred(#[trigger] self@.events[k]),
            decreases self@.events.len() - i,
        {
            if self.events[i].id() == event_id {
                proof {
                    assert(pred(self@.events[i as int]));
                    lemma_first_match(self@.events, pred, i as int);
                }
                return Ok(self.events[i].clone());
            }
            proof {
                assert(!pred(self@.events[i as int]));
            }
            i = i + 1;
        }
        proof {
            lemma_filter_none(self@.events, pred);
        }
        Err(Error::ResourceDoesNotExists)
    }

    /// Looks one match up by identifier, as `get_event_by` does for events.
    #[verifier::loop_isolation(false)]
    pub fn get_match_by(&self, match_id: i32) -> (r: Result<Match, Error>)
        ensures
            self@.matches_with_id(match_id).len() == 0 ==> r == Err::<Match, Error>(
                Error::ResourceDoesNotExists,
            ),
            self@.matches_with_id(match_id).len() > 0 ==> r == Ok::<Match, Error>(
                self@.matches_with_id(match_id)[0],
            ),
    {
        let ghost pred = |m: Match| m.spec_id() == match_id;
        let mut i: usize = 0;
        while i < self.matches.len()
            invariant
                i <= self@.matches.len(),
                forall|k: int| 0 <= k < i ==> !pred(#[trigger] self@.matches[k]),
            decreases self@.matches.len() - i,
        {
            if self.matches[i].id() == match_id {
                proof {
                    assert(pred(self@.matches[i as int]));
                    lemma_first_match(self@.matches, pred, i as int);
                }
                return Ok(self.matches[i].clone());
            }
            proof {
                assert(!pred(self@.matches[i as int]));
            }
            i = i + 1;
        }
        proof {
            lemma_filter_none(self@.matches, pred);
        }
        Err(Error::ResourceDoesNotExists)
    }

    /// Fetches the description of a match in the requested language.  If
    /// several rows carry the same match and language, the first stored row
    /// is the one returned; zero rows is `ResourceDoesNotExists`.
    #[verifier::loop_isolation(false)]
    pub fn get_match_description(&self, match_id: i32, language: Language) -> (r: Result<
        MatchDesc,
        Error,
    >)
        ensures
            self@.descs_for(match_id, language).len() == 0 ==> r == Err::<MatchDesc, Error>(
                Error::ResourceDoesNotExists,
            ),
            self@.descs_for(match_id, language).len() > 0 ==> r == Ok::<MatchDesc, Error>(
                self@.descs_for(match_id, language)[0],
            ),
    {
        let ghost pred = |d: MatchDesc| d.spec_match_id() == match_id && d.spec_language_code()
            == language;
        let mut i: usize = 0;
        while i < self.match_descs.len()
            invariant
                i <= self@.match_descs.len(),
                forall|k: int| 0 <= k < i ==> !pred(#[trigger] self@.match_descs[k]),
            decreases self@.match_descs.len() - i,
        {
            if self.match_descs[i].match_id() == match_id && self.match_descs[i].language_code()
                == language {
                proof {
                    assert(pred(self@.match_descs[i as int]));
                    lemma_first_match(self@.match_descs, pred, i as int);
                }
                return Ok(self.match_descs[i].clone());
            }
            proof {
                assert(!pred(self@.match_descs[i as int]));
            }
            i = i + 1;
        }
        proof {
            lemma_filter_none(self@.match_descs, pred);
        }
        Err(Error::ResourceDoesNotExists)
    }

    /// Returns the whole card of an event: every match of the event, in
    /// stored order.
    #[verifier::loop_isolation(false)]
    pub fn get_card(&self, event_id: i32) -> (r: Result<Vec<Match>, Error>)
        ensures
            r matches Ok(card) && card@ == self@.matches_for_event(event_id),
    {
        let ghost pred = |m: Match| m.spec_event_id() == event_id;
        let mut card: Vec<Match> = Vec::new();
        let mut i: usize = 0;
        while i < self.matches.len()
            invariant
                i <= self@.matches.len(),
                card@ == self@.matches.take(i as int).filter(pred),
            decreases self@.matches.len() - i,
        {
            proof {
                lemma_filter_take_step(self@.matches, pred, i as int);
            }
            if self.matches[i].event_id() == event_id {
                proof {
                    assert(pred(self@.matches[i as int]));
                }
                card.push(self.matches[i].clone());
            } else {
                proof {
                    assert(!pred(self@.matches[i as int]));
                }
            }
            i = i + 1;
        }
        proof {
            lemma_take_all(self@.matches);
        }
        Ok(card)
    }
}


impl Database {
    /// Whether the match with identifier `match_id` is on the card of
    /// event `event_id`.
    #[verifier::loop_isolation(false)]
    fn belongs_to_event(&self, match_id: i32, event_id: i32) -> (r: bool)
        ensures
            r == self@.match_belongs_to_event(match_id, event_id),
    {
        let mut i: usize = 0;
        while i < self.matches.len()
            invariant
                i <= self@.matches.len(),
                forall|k: int|
                    0 <= k < i ==> !((#[trigger] self@.matches[k]).spec_id() == match_id
                        && self@.matches[k].spec_event_id() == event_id),
            decreases self@.matches.len() - i,
        {
            if self.matches[i].id() == match_id && self.matches[i].event_id() == event_id {
                proof {
                    assert(self@.matches[i as int].spec_id() == match_id
                        && self@.matches[i as int].spec_event_id() == event_id);
                }
                return true;
            }
            i = i + 1;
        }
        proof {
            if self@.match_belongs_to_event(match_id, event_id) {
                let k = choose|k: int|
                    0 <= k < self@.matches.len() && (#[trigger] self@.matches[k]).spec_id()
                        == match_id && self@.matches[k].spec_event_id() == event_id;
                assert(false);
            }
        }
        false
    }

    /// Lists the events, newest first, one page at a time.
    #[verifier::loop_isolation(false)]
    pub fn get_events(&self, page: i64) -> (r: Result<Page<Event>, Error>)
        requires
            self@.wf(),
        ensures
            page < 1 <==> r matches Err(Error::InvalidPage),
            page >= 1 <==> r is Ok,
        page >= 1 <==> r is Ok,
            r matches Ok(p) ==> {
                &&& p.total_pages == total_pages_of(
                    self@.events.len() as int,
                    ITEMS_PER_PAGE as int,
                )
                &&& (p.total_pages == 0 <==> self@.events.len() == 0)
                &&& p.items@ == page_items(self@.events, page as int, ITEMS_PER_PAGE as int)
                &&& (page as int > p.total_pages ==> p.items@.len() == 0)
                &&& sorted_desc_by(p.items@, |e: Event| e.spec_date() as int)
            },
    {
        let mut rows: Vec<Event> = Vec::new();
        let mut i: usize = 0;
        while i < self.events.len()
            invariant
                i <= self@.events.len(),
                rows@ == self@.events.take(i as int),
            decreases self@.events.len() - i,
        {
            rows.push(self.events[i].clone());
            i = i + 1;
            proof {
                assert(self@.events.take(i as int) =~= self@.events.take(i as int - 1).push(
                    self@.events[i as int - 1],
                ));
            }
        }
        proof {
            lemma_take_all(self@.events);
        }
        let ghost sel = self@.events;
        let r = paginate(rows, page, ITEMS_PER_PAGE);
        proof {
            let key = |e: Event| e.spec_date() as int;
            if r is Ok {
                let items = (r->Ok_0).items@;
                let off = (page as int - 1) * (ITEMS_PER_PAGE as int);
                assert forall|a: int, b: int| 0 <= a < b < items.len() implies key(
                    #[trigger] items[a],
                ) >= key(#[trigger] items[b]) by {
                    assert(items[a] == sel[off + a]);
                    assert(items[b] == sel[off + b]);
                }
            }
        }
        r
    }

    /// Lists every rating written in one language, newest first, one page
    /// at a time.
    #[verifier::loop_isolation(false)]
    pub fn get_ratings(&self, page: i64, language: Language) -> (r: Result<Page<Rating>, Error>)
        requires
            self@.wf(),
        ensures
            page < 1 <==> r matches Err(Error::InvalidPage),
            page >= 1 <==> r is Ok,
        page >= 1 <==> r is Ok,
            r matches Ok(p) ==> {
                let sel = self@.ratings_with_language(language);
                &&& p.total_pages == total_pages_of(sel.len() as int, ITEMS_PER_PAGE as int)
                &&& (p.total_pages == 0 <==> sel.len() == 0)
                &&& p.items@ == page_items(sel, page as int, ITEMS_PER_PAGE as int)
                &&& (page as int > p.total_pages ==> p.items@.len() == 0)
                &&& sorted_desc_by(p.items@, |x: Rating| x.spec_publication_date() as int)
            },
    {
        let ghost pred = |x: Rating| x.spec_language_code() == language;
        let mut rows: Vec<Rating> = Vec::new();
        let mut i: usize = 0;
        while i < self.ratings.len()
            invariant
                i <= self@.ratings.len(),
                rows@ == self@.ratings.take(i as int).filter(pred),
            decreases self@.ratings.len() - i,
        {
            proof {
                lemma_filter_take_step(self@.ratings, pred, i as int);
            }
            if self.ratings[i].language_code() == language {
                proof {
                    assert(pred(self@.ratings[i as int]));
                }
                rows.push(self.ratings[i].clone());
            } else {
                proof {
                    assert(!pred(self@.ratings[i as int]));
                }
            }
            i = i + 1;
        }
        let ghost sel = self@.ratings_with_language(language);
        proof {
            lemma_take_all(self@.ratings);
            self@.ratings.lemma_filter_len(pred);
            lemma_filter_sorted_desc(
                self@.ratings,
                pred,
                |x: Rating| x.spec_publication_date() as int,
            );
        }
        let r = paginate(rows, page, ITEMS_PER_PAGE);
        proof {
            let key = |x: Rating| x.spec_publication_date() as int;
            if r is Ok {
                let items = (r->Ok_0).items@;
                let off = (page as int - 1) * (ITEMS_PER_PAGE as int);
                assert forall|a: int, b: int| 0 <= a < b < items.len() implies key(
                    #[trigger] items[a],
                ) >= key(#[trigger] items[b]) by {
                    assert(items[a] == sel[off + a]);
                    assert(items[b] == sel[off + b]);
                }
            }
        }
        r
    }

    /// Lists the ratings of one match in one language, newest first, one
    /// page at a time.
    #[verifier::loop_isolation(false)]
    pub fn get_ratings_for_match(&self, match_id: i32, page: i64, language: Language) -> (r:
        Result<Page<Rating>, Error>)
        requires
            self@.wf(),
        ensures
            page < 1 <==> r matches Err(Error::InvalidPage),
            page >= 1 <==> r is Ok,
        page >= 1 <==> r is Ok,
            r matches Ok(p) ==> {
                let sel = self@.ratings_for_match(match_id, language);
                &&& p.total_pages == total_pages_of(sel.len() as int, ITEMS_PER_PAGE as int)
                &&& (p.total_pages == 0 <==> sel.len() == 0)
                &&& p.items@ == page_items(sel, page as int, ITEMS_PER_PAGE as int)
                &&& (page as int > p.total_pages ==> p.items@.len() == 0)
                &&& sorted_desc_by(p.items@, |x: Rating| x.spec_publication_date() as int)
            },
    {
        let ghost pred = |x: Rating| x.spec_match_id() == match_id && x.spec_language_code()
            == language;
        let mut rows: Vec<Rating> = Vec::new();
        let mut i: usize = 0;
        while i < self.ratings.len()
            invariant
                i <= self@.ratings.len(),
                rows@ == self@.ratings.take(i as int).filter(pred),
            decreases self@.ratings.len() - i,
        {
            proof {
                lemma_filter_take_step(self@.ratings, pred, i as int);
            }
            if self.ratings[i].match_id() == match_id && self.ratings[i].language_code()
                == language {
                proof {
                    assert(pred(self@.ratings[i as int]));
                }
                rows.push(self.ratings[i].clone());
            } else {
                proof {
                    assert(!pred(self@.ratings[i as int]));
                }
            }
            i = i + 1;
        }
        let ghost sel = self@.ratings_for_match(match_id, language);
        proof {
            lemma_take_all(self@.ratings);
            self@.ratings.lemma_filter_len(pred);
            lemma_filter_sorted_desc(
                self@.ratings,
                pred,
                |x: Rating| x.spec_publication_date() as int,
            );
        }
        let r = paginate(rows, page, ITEMS_PER_PAGE);
        proof {
            let key = |x: Rating| x.spec_publication_date() as int;
            if r is Ok {
                let items = (r->Ok_0).items@;
                let off = (page as int - 1) * (ITEMS_PER_PAGE as int);
                assert forall|a: int, b: int| 0 <= a < b < items.len() implies key(
                    #[trigger] items[a],
                ) >= key(#[trigger] items[b]) by {
                    assert(items[a] == sel[off + a]);
                    assert(items[b] == sel[off + b]);
                }
            }
        }
        r
    }

    /// Lists the ratings of every match of an event in one language,
    /// newest first, one page at a time.
    #[verifier::loop_isolation(false)]
    pub fn get_ratings_for_event(&self, event_id: i32, page: i64, language: Language) -> (r:
        Result<Page<Rating>, Error>)
        requires
            self@.wf(),
        ensures
            page < 1 <==> r matches Err(Error::InvalidPage),
            page >= 1 <==> r is Ok,
        page >= 1 <==> r is Ok,
            r matches Ok(p) ==> {
                let sel = self@.ratings_for_event(event_id, language);
                &&& p.total_pages == total_pages_of(sel.len() as int, ITEMS_PER_PAGE as int)
                &&& (p.total_pages == 0 <==> sel.len() == 0)
                &&& p.items@ == page_items(sel, page as int, ITEMS_PER_PAGE as int)
                &&& (page as int > p.total_pages ==> p.items@.len() == 0)
                &&& sorted_desc_by(p.items@, |x: Rating| x.spec_publication_date() as int)
            },
    {
        let ghost pred = |x: Rating| self@.match_belongs_to_event(x.spec_match_id(), event_id)
            && x.spec_language_code() == language;
        let mut rows: Vec<Rating> = Vec::new();
        let mut i: usize = 0;
        while i < self.ratings.len()
            invariant
                i <= self@.ratings.len(),
                rows@ == self@.ratings.take(i as int).filter(pred),
            decreases self@.ratings.len() - i,
        {
            proof {
                lemma_filter_take_step(self@.ratings, pred, i as int);
            }
            let on_card = self.belongs_to_event(self.ratings[i].match_id(), event_id);
            if on_card && self.ratings[i].language_code() == language {
                proof {
                    assert(pred(self@.ratings[i as int]));
                }
                rows.push(self.ratings[i].clone());
            } else {
                proof {
                    assert(!pred(self@.ratings[i as int]));
                }
            }
            i = i + 1;
        }
        let ghost sel = self@.ratings_for_event(event_id, language);
        proof {
            lemma_take_all(self@.ratings);
            self@.ratings.lemma_filter_len(pred);
            lemma_filter_sorted_desc(
                self@.ratings,
                pred,
                |x: Rating| x.spec_publication_date() as int,
            );
        }
        let r = paginate(rows, page, ITEMS_PER_PAGE);
        proof {
            let key = |x: Rating| x.spec_publication_date() as int;
            if r is Ok {
                let items = (r->Ok_0).items@;
                let off = (page as int - 1) * (ITEMS_PER_PAGE as int);
                assert forall|a: int, b: int| 0 <= a < b < items.len() implies key(
                    #[trigger] items[a],
                ) >= key(#[trigger] items[b]) by {
                    assert(items[a] == sel[off + a]);
                    assert(items[b] == sel[off + b]);
                }
            }
        }
        r
    }
}


/// The sum of a run of scores, each brought to `MAX_SCORE_SCALE`
/// fractional digits.
pub open spec fn sum_scaled(s: Seq<Rating>) -> int
    decreases s.len(),
{
    if s.len() == 0 {
        0
    } else {
        sum_scaled(s.drop_last()) + s.last().spec_score().scaled()
    }
}

impl Database {
    /// Sums the scores of the given rows at `MAX_SCORE_SCALE` digits.
    #[verifier::loop_isolation(false)]
    fn sum_scores(rows: &Vec<Rating>) -> (total: i128)
        requires
            forall|k: int|
                0 <= k < rows@.len() ==> (#[trigger] rows@[k]).spec_score().score_wf(),
            rows@.len() <= MAX_AGGREGATE_ROWS as int,
        ensures
            total as int == sum_scaled(rows@),
            -(rows@.len() as int) * (MAX_SCALED_SCORE as int) <= total as int <= (
            rows@.len() as int) * (MAX_SCALED_SCORE as int),
    {
        let mut acc: i128 = 0;
        let mut i: usize = 0;
        while i < rows.len()
            invariant
                i <= rows@.len(),
                acc as int == sum_scaled(rows@.take(i as int)),
                -(i as int) * (MAX_SCALED_SCORE as int) <= acc as int <= (i as int) * (
                MAX_SCALED_SCORE as int),
            decreases rows@.len() - i,
        {
            let sc = rows[i].score();
            proof {
                assert(rows@[i as int].spec_score().score_wf());
                lemma_pow10_values();
                lemma_pow10_mono((MAX_SCORE_SCALE - sc.scale) as nat, 6);
                lemma_pow10_pos((MAX_SCORE_SCALE - sc.scale) as nat);
                assert(-(MAX_SCALED_SCORE as int) <= sc.mantissa * pow10(
                    (MAX_SCORE_SCALE - sc.scale) as nat,
                ) <= MAX_SCALED_SCORE as int) by (nonlinear_arith)
                    requires
                        -1_000_000_000 <= sc.mantissa <= 1_000_000_000,
                        1 <= pow10((MAX_SCORE_SCALE - sc.scale) as nat) <= 1_000_000,
                        MAX_SCALED_SCORE == 1_000_000_000_000_000i128,
                ;
            }
            let factor = pow10_exec(MAX_SCORE_SCALE - sc.scale) as i128;
            let addend: i128 = sc.mantissa * factor;
            proof {
                assert((i as int + 1) * (MAX_SCALED_SCORE as int) == (i as int) * (
                MAX_SCALED_SCORE as int) + MAX_SCALED_SCORE as int) by (nonlinear_arith);
            }
            acc = acc + addend;
            i = i + 1;
            proof {
                let taken = rows@.take(i as int);
                assert(taken.drop_last() =~= rows@.take(i as int - 1));
                assert(taken.last() == rows@[i as int - 1]);
                assert(addend as int == rows@[i as int - 1].spec_score().scaled());
            }
        }
        proof {
            lemma_take_all(rows@);
        }
        acc
    }

    /// The mean score of one match over every language, or the distinct
    /// "no ratings yet" outcome when the match has no ratings: never zero
    /// and never an error.
    #[verifier::loop_isolation(false)]
    pub fn get_average_rating_for_match(&self, match_id: i32) -> (r: Result<
        Option<Decimal>,
        Error,
    >)
        requires
            self@.wf(),
        ensures
            self@.match_ratings_all(match_id).len() == 0 ==> r == Ok::<Option<Decimal>, Error>(
                None,
            ),
            self@.match_ratings_all(match_id).len() > 0 ==> (r matches Ok(avg)
                && avg matches Some(d) && is_truncated_mean(
                d,
                sum_scaled(self@.match_ratings_all(match_id)),
                self@.match_ratings_all(match_id).len() as int,
            )),
    {
        let ghost pred = |x: Rating| x.spec_match_id() == match_id;
        let mut rows: Vec<Rating> = Vec::new();
        let mut i: usize = 0;
        while i < self.ratings.len()
            invariant
                i <= self@.ratings.len(),
                rows@ == self@.ratings.take(i as int).filter(pred),
            decreases self@.ratings.len() - i,
        {
            proof {
                lemma_filter_take_step(self@.ratings, pred, i as int);
            }
            if self.ratings[i].match_id() == match_id {
                proof {
                    assert(pred(self@.ratings[i as int]));
                }
                rows.push(self.ratings[i].clone());
            } else {
                proof {
                    assert(!pred(self@.ratings[i as int]));
                }
            }
            i = i + 1;
        }
        let ghost sel = self@.match_ratings_all(match_id);
        proof {
            lemma_take_all(self@.ratings);
            self@.ratings.lemma_filter_len(pred);
            lemma_filter_membership(self@.ratings, pred);
            assert forall|k: int| 0 <= k < rows@.len() implies (
            #[trigger] rows@[k]).spec_score().score_wf() by {
                assert(sel.contains(rows@[k]));
                assert(self@.ratings.contains(rows@[k]));
                let k0 = choose|k0: int|
                    0 <= k0 < self@.ratings.len() && self@.ratings[k0] == rows@[k];
                assert(self@.ratings[k0].spec_score().score_wf());
            }
        }
        if rows.len() == 0 {
            return Ok(None);
        }
        let total = Self::sum_scores(&rows);
        let count = rows.len();
        Ok(Some(avg_of_sum(total, count)))
    }

    /// The mean score over every match of an event and every language, or
    /// the "no ratings yet" outcome when no match of the event has been
    /// rated.
    #[verifier::loop_isolation(false)]
    pub fn get_average_rating_for_event(&self, event_id: i32) -> (r: Result<
        Option<Decimal>,
        Error,
    >)
        requires
            self@.wf(),
        ensures
            self@.event_ratings_all(event_id).len() == 0 ==> r == Ok::<Option<Decimal>, Error>(
                None,
            ),
            self@.event_ratings_all(event_id).len() > 0 ==> (r matches Ok(avg)
                && avg matches Some(d) && is_truncated_mean(
                d,
                sum_scaled(self@.event_ratings_all(event_id)),
                self@.event_ratings_all(event_id).len() as int,
            )),
    {
        let ghost pred = |x: Rating| self@.match_belongs_to_event(x.spec_match_id(), event_id);
        let mut rows: Vec<Rating> = Vec::new();
        let mut i: usize = 0;
        while i < self.ratings.len()
            invariant
                i <= self@.ratings.len(),
                rows@ == self@.ratings.take(i as int).filter(pred),
            decreases self@.ratings.len() - i,
        {
            proof {
                lemma_filter_take_step(self@.ratings, pred, i as int);
            }
            let on_card = self.belongs_to_event(self.ratings[i].match_id(), event_id);
            if on_card {
                proof {
                    assert(pred(self@.ratings[i as int]));
                }
                rows.push(self.ratings[i].clone());
            } else {
                proof {
                    assert(!pred(self@.ratings[i as int]));
                }
            }
            i = i + 1;
        }
        let ghost sel = self@.event_ratings_all(event_id);
        proof {
            lemma_take_all(self@.ratings);
            self@.ratings.lemma_filter_len(pred);
            lemma_filter_membership(self@.ratings, pred);
            assert forall|k: int| 0 <= k < rows@.len() implies (
            #[trigger] rows@[k]).spec_score().score_wf() by {
                assert(sel.contains(rows@[k]));
                assert(self@.ratings.contains(rows@[k]));
                let k0 = choose|k0: int|
                    0 <= k0 < self@.ratings.len() && self@.ratings[k0] == rows@[k];
                assert(self@.ratings[k0].spec_score().score_wf());
            }
        }
        if rows.len() == 0 {
            return Ok(None);
        }
        let total = Self::sum_scores(&rows);
        let count = rows.len();
        Ok(Some(avg_of_sum(total, count)))
    }

    /// Stores a newly submitted rating.  A second rating by the same user
    /// for the same match is rejected as `UsernameAlreadyUsed` and leaves
    /// the store untouched; an accepted rating receives the next
    /// identifier and takes its place in the newest-first order.  The
    /// preconditions are the machine's envelope, not business rules: the
    /// score must fit the fixed-point form, and the table and the
    /// identifier space must have room left.
    #[verifier::loop_isolation(false)]
    pub fn new_rating(&mut self, rating: NewRating) -> (r: Result<(), Error>)
        requires
            old(self)@.wf(),
            rating.score.score_wf(),
            old(self)@.ratings.len() < MAX_AGGREGATE_ROWS as int,
            old(self)@.next_rating_id < i32::MAX as int,
        ensures
            final(self)@.wf(),
            old(self)@.has_rating_for(rating.match_id, rating.username@) ==> (r == Err::<(), Error>(
                Error::UsernameAlreadyUsed,
            ) && final(self)@ == old(self)@),
            !old(self)@.has_rating_for(rating.match_id, rating.username@) ==> ({
                &&& r == Ok::<(), Error>(())
                &&& exists|j: int|
                    0 <= j <= old(self)@.ratings.len()
                    && final(self)@.ratings
                        == old(self)@.ratings.insert(j, #[trigger] final(self)@.ratings[j])
                    && matches_new(
                        final(self)@.ratings[j],
                        rating,
                        old(self)@.next_rating_id as i32,
                    )
                &&& final(self)@.events == old(self)@.events
                &&& final(self)@.matches == old(self)@.matches
                &&& final(self)@.match_descs == old(self)@.match_descs
                &&& final(self)@.next_rating_id == old(self)@.next_rating_id + 1
            }),
    {
        let mut i: usize = 0;
        while i < self.ratings.len()
            invariant
                i <= self@.ratings.len(),
                forall|k: int|
                    0 <= k < i ==> !((#[trigger] self@.ratings[k]).spec_match_id()
                        == rating.match_id && self@.ratings[k].spec_username()
                        == rating.username@),
            decreases self@.ratings.len() - i,
        {
            if self.ratings[i].match_id() == rating.match_id && self.ratings[i]
                .username()
                .to_owned() == rating.username {
                proof {
                    assert(self@.ratings[i as int].spec_match_id() == rating.match_id
                        && self@.ratings[i as int].spec_username() == rating.username@);
                }
                return Err(Error::UsernameAlreadyUsed);
            }
            i = i + 1;
        }
        proof {
            if self@.has_rating_for(rating.match_id, rating.username@) {
                let k = choose|k: int|
                    0 <= k < self@.ratings.len() && (#[trigger] self@.ratings[k]).spec_match_id()
                        == rating.match_id && self@.ratings[k].spec_username()
                        == rating.username@;
                assert(false);
            }
        }
        let ghost before = self@.ratings;
        let mut idx: usize = 0;
        while idx < self.ratings.len() && self.ratings[idx].publication_date()
            > rating.publication_date
            invariant
                idx <= self@.ratings.len(),
                self@.ratings == before,
                forall|k: int|
                    0 <= k < idx ==> (#[trigger] self@.ratings[k]).spec_publication_date()
                        > rating.publication_date,
            decreases self@.ratings.len() - idx,
        {
            idx = idx + 1;
        }
        let row = Rating::from_new(rating, self.next_rating_id);
        self.ratings.insert(idx, row);
        self.next_rating_id = self.next_rating_id + 1;
        proof {
            before.insert_ensures(idx as int, row);
            let key = |x: Rating| x.spec_publication_date() as int;
            assert forall|a: int, b: int| 0 <= a < b < self@.ratings.len() implies key(
                #[trigger] self@.ratings[a],
            ) >= key(#[trigger] self@.ratings[b]) by {
                if b < idx {
                    assert(self@.ratings[a] == before[a] && self@.ratings[b] == before[b]);
                } else if b == idx {
                    assert(self@.ratings[a] == before[a]);
                } else {
                    assert(self@.ratings[b] == before[b - 1]);
                    if a < idx {
                        assert(self@.ratings[a] == before[a]);
                    } else if a == idx {
                        assert(idx < before.len());
                        assert(!(before[idx as int].spec_publication_date()
                            > rating.publication_date));
                    } else {
                        assert(self@.ratings[a] == before[a - 1]);
                    }
                }
            }
            assert forall|k: int| 0 <= k < self@.ratings.len() implies (
            #[trigger] self@.ratings[k]).spec_score().score_wf() by {
                if k < idx {
                    assert(self@.ratings[k] == before[k]);
                } else if k > idx {
                    assert(self@.ratings[k] == before[k - 1]);
                }
            }
            assert forall|a: int, b: int|
                #![trigger self@.ratings[a], self@.ratings[b]]
                0 <= a < b < self@.ratings.len() implies !(self@.ratings[a].spec_match_id()
                == self@.ratings[b].spec_match_id() && self@.ratings[a].spec_username()
                == self@.ratings[b].spec_username()) by {
                let ra = if a < idx {
                    before[a]
                } else if a == idx {
                    row
                } else {
                    before[a - 1]
                };
                let rb = if b < idx {
                    before[b]
                } else if b == idx {
                    row
                } else {
                    before[b - 1]
                };
                assert(self@.ratings[a] == ra);
                assert(self@.ratings[b] == rb);
            }
            assert forall|k: int| 0 <= k < self@.ratings.len() implies (
            #[trigger] self@.ratings[k]).spec_id() < self@.next_rating_id by {
                if k < idx {
                    assert(self@.ratings[k] == before[k]);
                } else if k > idx {
                    assert(self@.ratings[k] == before[k - 1]);
                }
            }
            assert(self@.ratings[idx as int] == row);
            assert(0 <= idx as int <= before.len() && self@.ratings == before.insert(
                idx as int,
                self@.ratings[idx as int],
            ) && matches_new(
                self@.ratings[idx as int],
                rating,
                (self@.next_rating_id - 1) as i32,
            ));
        }
        Ok(())
    }
}

/// The ratings an event lists are exactly the ratings its matches list:
/// a rating stands in the event's language-filtered listing precisely when
/// some match on the event's card lists it for the same language.  The
/// listing operations' own contracts add that either listing comes out in
/// descending publication-date order.
pub proof fn lemma_event_scope_union(m: StoreModel, event_id: i32, lang: Language)
    ensures
        forall|r: Rating| #[trigger]
            m.ratings_for_event(event_id, lang).contains(r) <==> exists|mm: Match|
                #[trigger] m.matches_for_event(event_id).contains(mm)
                    && m.ratings_for_match(mm.spec_id(), lang).contains(r),
{
    let event_pred = |x: Rating| m.match_belongs_to_event(x.spec_match_id(), event_id)
        && x.spec_language_code() == lang;
    let card_pred = |x: Match| x.spec_event_id() == event_id;
    lemma_filter_membership(m.ratings, event_pred);
    lemma_filter_membership(m.matches, card_pred);
    assert forall|r: Rating| #[trigger]
        m.ratings_for_event(event_id, lang).contains(r) implies exists|mm: Match|
        #[trigger] m.matches_for_event(event_id).contains(mm) && m.ratings_for_match(
            mm.spec_id(),
            lang,
        ).contains(r) by {
        assert(m.ratings.contains(r) && event_pred(r));
        let k = choose|k: int|
            0 <= k < m.matches.len() && (#[trigger] m.matches[k]).spec_id()
                == r.spec_match_id() && m.matches[k].spec_event_id() == event_id;
        let mm = m.matches[k];
        assert(m.matches.contains(mm));
        assert(card_pred(mm));
        assert(m.matches_for_event(event_id).contains(mm));
        let match_pred = |x: Rating| x.spec_match_id() == mm.spec_id()
            && x.spec_language_code() == lang;
        lemma_filter_membership(m.ratings, match_pred);
        assert(match_pred(r));
        assert(m.ratings_for_match(mm.spec_id(), lang).contains(r));
    }
    assert forall|r: Rating|
        (exists|mm: Match|
            #[trigger] m.matches_for_event(event_id).contains(mm) && m.ratings_for_match(
                mm.spec_id(),
                lang,
            ).contains(r)) implies #[trigger] m.ratings_for_event(event_id, lang).contains(
        r,
    ) by {
        let mm = choose|mm: Match|
            #[trigger] m.matches_for_event(event_id).contains(mm) && m.ratings_for_match(
                mm.spec_id(),
                lang,
            ).contains(r);
        let match_pred = |x: Rating| x.spec_match_id() == mm.spec_id()
            && x.spec_language_code() == lang;
        lemma_filter_membership(m.ratings, match_pred);
        assert(m.ratings.contains(r) && match_pred(r));
        assert(m.matches.contains(mm) && card_pred(mm));
        let k = choose|k: int| 0 <= k < m.matches.len() && m.matches[k] == mm;
        assert((#[trigger] m.matches[k]).spec_id() == r.spec_match_id()
            && m.matches[k].spec_event_id() == event_id);
        assert(m.match_belongs_to_event(r.spec_match_id(), event_id));
        assert(event_pred(r));
    }
}

} // verus!
