use crate::decimal::Decimal;
use crate::language::Language;
use vstd::prelude::*;

verus! {

/// An event on the calendar.  Events are seeded out of band and read-only at
/// run time; `date` is the day number of the event (days since the calendar
/// epoch), the form every date takes inside the library.
#[derive(Debug, PartialEq)]
pub struct Event {
    id: i32,
    name: String,
    promotion: String,
    date: i32,
}

impl Event {
    pub closed spec fn spec_id(&self) -> i32 {
        self.id
    }

    pub closed spec fn spec_name(&self) -> Seq<char> {
        self.name@
    }

    pub closed spec fn spec_promotion(&self) -> Seq<char> {
        self.promotion@
    }

    pub closed spec fn spec_date(&self) -> i32 {
        self.date
    }

    pub fn new(id: i32, name: String, promotion: String, date: i32) -> (r: Event)
        ensures
            r.spec_id() == id,
            r.spec_name() == name@,
            r.spec_promotion() == promotion@,
            r.spec_date() == date,
    {
        Event { id, name, promotion, date }
    }

    #[verifier::when_used_as_spec(spec_id)]
    pub fn id(&self) -> (r: i32)
        ensures
            r == self.spec_id(),
    {
        self.id
    }

    pub fn name(&self) -> (r: &str)
        ensures
            r@ == self.spec_name(),
    {
        self.name.as_str()
    }

    pub fn promotion(&self) -> (r: &str)
        ensures
            r@ == self.spec_promotion(),
    {
        self.promotion.as_str()
    }

    #[verifier::when_used_as_spec(spec_date)]
    pub fn date(&self) -> (r: i32)
        ensures
            r == self.spec_date(),
    {
        self.date
    }
}

impl Clone for Event {
    fn clone(&self) -> (r: Self)
        ensures
            r == *self,
    {
        Event {
            id: self.id,
            name: self.name.clone(),
            promotion: self.promotion.clone(),
            date: self.date,
        }
    }
}

/// A match on an event's card; `workers` is the free text naming the
/// participants.
#[derive(Debug, PartialEq)]
pub struct Match {
    id: i32,
    event_id: i32,
    workers: String,
}

impl Match {
    pub closed spec fn spec_id(&self) -> i32 {
        self.id
    }

    pub closed spec fn spec_event_id(&self) -> i32 {
        self.event_id
    }

    pub closed spec fn spec_workers(&self) -> Seq<char> {
        self.workers@
    }

    pub fn new(id: i32, event_id: i32, workers: String) -> (r: Match)
        ensures
            r.spec_id() == id,
            r.spec_event_id() == event_id,
            r.spec_workers() == workers@,
    {
        Match { id, event_id, workers }
    }

    #[verifier::when_used_as_spec(spec_id)]
    pub fn id(&self) -> (r: i32)
        ensures
            r == self.spec_id(),
    {
        self.id
    }

    #[verifier::when_used_as_spec(spec_event_id)]
    pub fn event_id(&self) -> (r: i32)
        ensures
            r == self.spec_event_id(),
    {
        self.event_id
    }

    pub fn workers(&self) -> (r: &str)
        ensures
            r@ == self.spec_workers(),
    {
        self.workers.as_str()
    }
}

impl Clone for Match {
    fn clone(&self) -> (r: Self)
        ensures
            r == *self,
    {
        Match { id: self.id, event_id: self.event_id, workers: self.workers.clone() }
    }
}

/// The description of a match in one language.
#[derive(Debug, PartialEq)]
pub struct MatchDesc {
    id: i32,
    match_id: i32,
    description: String,
    language_code: Language,
}

impl MatchDesc {
    pub closed spec fn spec_id(&self) -> i32 {
        self.id
    }

    pub closed spec fn spec_match_id(&self) -> i32 {
        self.match_id
    }

    pub closed spec fn spec_description(&self) -> Seq<char> {
        self.description@
    }

    pub closed spec fn spec_language_code(&self) -> Language {
        self.language_code
    }

    pub fn new(id: i32, match_id: i32, description: String, language_code: Language) -> (r:
        MatchDesc)
        ensures
            r.spec_id() == id,
            r.spec_match_id() == match_id,
            r.spec_description() == description@,
            r.spec_language_code() == language_code,
    {
        MatchDesc { id, match_id, description, language_code }
    }

    #[verifier::when_used_as_spec(spec_id)]
    pub fn id(&self) -> (r: i32)
        ensures
            r == self.spec_id(),
    {
        self.id
    }

    #[verifier::when_used_as_spec(spec_match_id)]
    pub fn match_id(&self) -> (r: i32)
        ensures
            r == self.spec_match_id(),
    {
        self.match_id
    }

    #[verifier::when_used_as_spec(spec_language_code)]
    pub fn language_code(&self) -> (r: Language)
        ensures
            r == self.spec_language_code(),
    {
        self.language_code
    }

    pub fn description(&self) -> (r: &str)
        ensures
            r@ == self.spec_description(),
    {
        self.description.as_str()
    }
}

impl Clone for MatchDesc {
    fn clone(&self) -> (r: Self)
        ensures
            r == *self,
    {
        MatchDesc {
            id: self.id,
            match_id: self.match_id,
            description: self.description.clone(),
            language_code: self.language_code,
        }
    }
}

/// One user's rating of one match: a decimal score, the moment it was
/// submitted (seconds since the clock epoch, stamped by the boundary, never
/// trusted from the client), and an optional free-text opinion.
#[derive(Debug, PartialEq)]
pub struct Rating {
    id: i32,
    match_id: i32,
    language_code: Language,
    username: String,
    score: Decimal,
    publication_date: i64,
    opinion: Option<String>,
}

impl Rating {
    pub closed spec fn spec_id(&self) -> i32 {
        self.id
    }

    pub closed spec fn spec_match_id(&self) -> i32 {
        self.match_id
    }

    pub closed spec fn spec_language_code(&self) -> Language {
        self.language_code
    }

    pub closed spec fn spec_username(&self) -> Seq<char> {
        self.username@
    }

    pub closed spec fn spec_score(&self) -> Decimal {
        self.score
    }

    pub closed spec fn spec_publication_date(&self) -> i64 {
        self.publication_date
    }

    pub closed spec fn spec_opinion(&self) -> Option<String> {
        self.opinion
    }

    /// Builds the stored row for a submission once the store has assigned
    /// it an identifier.
    pub fn from_new(new: NewRating, id: i32) -> (r: Rating)
        ensures
            matches_new(r, new, id),
    {
        Rating {
            id,
            match_id: new.match_id,
            language_code: new.language_code,
            username: new.username,
            score: new.score,
            publication_date: new.publication_date,
            opinion: new.opinion,
        }
    }

    #[verifier::when_used_as_spec(spec_id)]
    pub fn id(&self) -> (r: i32)
        ensures
            r == self.spec_id(),
    {
        self.id
    }

    #[verifier::when_used_as_spec(spec_match_id)]
    pub fn match_id(&self) -> (r: i32)
        ensures
            r == self.spec_match_id(),
    {
        self.match_id
    }

    #[verifier::when_used_as_spec(spec_language_code)]
    pub fn language_code(&self) -> (r: Language)
        ensures
            r == self.spec_language_code(),
    {
        self.language_code
    }

    pub fn username(&self) -> (r: &str)
        ensures
            r@ == self.spec_username(),
    {
        self.username.as_str()
    }

    #[verifier::when_used_as_spec(spec_score)]
    pub fn score(&self) -> (r: Decimal)
        ensures
            r == self.spec_score(),
    {
        self.score
    }

    #[verifier::when_used_as_spec(spec_publication_date)]
    pub fn publication_date(&self) -> (r: i64)
        ensures
            r == self.spec_publication_date(),
    {
        self.publication_date
    }

    pub fn opinion(&self) -> (r: &Option<String>)
        ensures
            *r == self.spec_opinion(),
    {
        &self.opinion
    }
}

impl Clone for Rating {
    fn clone(&self) -> (r: Self)
        ensures
            r == *self,
    {
        Rating {
            id: self.id,
            match_id: self.match_id,
            language_code: self.language_code,
            username: self.username.clone(),
            score: self.score,
            publication_date: self.publication_date,
            opinion: match &self.opinion {
                Some(text) => Some(text.clone()),
                None => None,
            },
        }
    }
}

/// A rating as submitted, before the store has assigned it an identifier.
/// `publication_date` is stamped by the boundary at submission time.
#[derive(Debug, PartialEq)]
pub struct NewRating {
    pub match_id: i32,
    pub language_code: Language,
    pub username: String,
    pub score: Decimal,
    pub publication_date: i64,
    pub opinion: Option<String>,
}

/// Whether stored row `r` is submission `new` under identifier `id`.
pub open spec fn matches_new(r: Rating, new: NewRating, id: i32) -> bool {
    &&& r.spec_id() == id
    &&& r.spec_match_id() == new.match_id
    &&& r.spec_language_code() == new.language_code
    &&& r.spec_username() == new.username@
    &&& r.spec_score() == new.score
    &&& r.spec_publication_date() == new.publication_date
    &&& r.spec_opinion() == new.opinion
}

/// A rating payload as the boundary receives it: no identifier and no
/// submission time yet.
#[derive(Debug, PartialEq)]
pub struct RequestRating {
    pub match_id: i32,
    pub language_code: Language,
    pub username: String,
    pub score: Decimal,
    pub opinion: Option<String>,
}

impl RequestRating {
    /// Turns a received payload into a submission, stamping it with the
    /// moment the boundary accepted it.
    pub fn into_new_rating(self, publication_date: i64) -> (r: NewRating)
        ensures
            r.match_id == self.match_id,
            r.language_code == self.language_code,
            r.username@ == self.username@,
            r.score == self.score,
            r.publication_date == publication_date,
            r.opinion == self.opinion,
    {
        NewRating {
            match_id: self.match_id,
            language_code: self.language_code,
            username: self.username,
            score: self.score,
            publication_date,
            opinion: self.opinion,
        }
    }
}

} // verus!
