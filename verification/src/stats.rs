use crate::assoc::{assoc, lemma_assoc_at, lemma_assoc_push, lemma_assoc_update};
use crate::tally::{
    aggregate, lemma_aggregate_step, lemma_author_increment_keeps_consistency, lemma_empty_is_consistent,
    lemma_increment_keeps_consistency, lemma_sum_of_bounds_each, sum_of, AuthorTally, RepoTally,
};
use crate::ranking::{
    counts_of, in_order, is_index_order, is_ranking_of, key_at, lemma_order_is_ranking, lex_less,
    names_of, rank_order, ranks_before,
};
use crate::text::{chars_of, decimal_digits, decimal_text};
use core::ops::AddAssign;
use vstd::hash_map::StringHashMap;
use vstd::prelude::*;

verus! {

/// An author, known by the exact email string.
#[derive(Debug, PartialEq, Eq, Hash, Clone)]
pub struct Author {
    pub email: String,
}

/// A file type, known by the exact extension string, or `Unknown`.
#[derive(Debug, PartialEq, Eq, Hash, Clone)]
pub struct FileType(pub String);

/// A number of lines.
#[derive(Debug, PartialEq, Eq, PartialOrd, Ord)]
pub struct NumberOfLines(pub u32);

/// The lines of one author: the total, and the count for each file type in the order in
/// which the types were first seen. The place of each file type among the entries is kept
/// in a hash map, so that an entry is found without a search.
pub struct AuthorStats {
    pub lines: NumberOfLines,
    pub file_types: Vec<(FileType, NumberOfLines)>,
    pub places: StringHashMap<usize>,
}

/// The lines of a repository: the grand total, and the statistics of each author in the
/// order in which the authors were first seen. The place of each author among the entries
/// is kept in a hash map, so that an entry is found without a search.
pub struct RepoStats {
    pub author_stats: Vec<(Author, AuthorStats)>,
    pub total_lines: NumberOfLines,
    pub places: StringHashMap<usize>,
}

impl core::ops::AddAssign for NumberOfLines {
    /// Adds the other number of lines to this one.
    fn add_assign(&mut self, other: Self)
        requires
            old(self).0 + other.0 <= u32::MAX,
        ensures
            final(self).0 == old(self).0 + other.0,
    {
        *self = NumberOfLines(self.0 + other.0);
    }
}

impl NumberOfLines {
    /// The number in decimal notation.
    pub fn to_text(&self) -> (text: String)
        ensures
            text@ == decimal_digits(self.0 as nat),
    {
        decimal_text(self.0)
    }
}

impl FileType {
    /// The name of the file type.
    pub fn to_text(&self) -> (text: String)
        ensures
            text@ == self.0@,
    {
        self.0.clone()
    }
}

/// The name under which a file is counted: its extension, or `Unknown` where it has none.
pub open spec fn file_type_name(file_extension: Option<&str>) -> Seq<char> {
    match file_extension {
        Some(extension) => extension@,
        None => "Unknown"@,
    }
}

/// Whether the hash map gives each of the names, and no other key, the place at which the
/// name stands.
pub open spec fn gives_places(places: Map<Seq<char>, usize>, names: Seq<Seq<char>>) -> bool {
    &&& forall|i: int|
        0 <= i < names.len() ==> places.contains_key(#[trigger] names[i]) && places[names[i]] == i
    &&& forall|name: Seq<char>| #[trigger]
        places.contains_key(name) ==> places[name] < names.len() && names[places[name] as int]
            == name
}

/// The hash map with one more name, which stands behind the others.
proof fn lemma_gives_places_push(places: Map<Seq<char>, usize>, names: Seq<Seq<char>>, name: Seq<char>)
    requires
        gives_places(places, names),
        !names.contains(name),
        names.len() <= usize::MAX,
    ensures
        gives_places(places.insert(name, names.len() as usize), names.push(name)),
{
    let longer = names.push(name);
    let more = places.insert(name, names.len() as usize);
    assert forall|i: int| 0 <= i < longer.len() implies more.contains_key(#[trigger] longer[i])
        && more[longer[i]] == i by {
        if i < names.len() {
            assert(names[i] == longer[i]);
            assert(names.contains(names[i]));
        }
    }
    assert forall|other: Seq<char>| #[trigger] more.contains_key(other) implies more[other]
        < longer.len() && longer[more[other] as int] == other by {
        if other != name {
            assert(places.contains_key(other));
        }
    }
}

impl View for AuthorStats {
    type V = AuthorTally;

    open spec fn view(&self) -> AuthorTally {
        AuthorTally {
            lines: self.lines.0 as nat,
            file_types: assoc(self.type_names(), self.type_counts()),
        }
    }
}

impl AuthorStats {
    /// The names of the file types, in the order of the entries.
    pub open spec fn type_names(&self) -> Seq<Seq<char>> {
        self.file_types@.map_values(|entry: (FileType, NumberOfLines)| entry.0.0@)
    }

    /// The line counts of the file types, in the order of the entries.
    pub open spec fn type_counts(&self) -> Seq<nat> {
        self.file_types@.map_values(|entry: (FileType, NumberOfLines)| entry.1.0 as nat)
    }

    /// Whether the hash map gives each file type its place among the entries.
    pub open spec fn indexed(&self) -> bool {
        gives_places(self.places@, self.type_names())
    }

    /// No file type has two entries, each entry counts one line at least, the counts add
    /// up to the total, and the hash map gives each file type its place.
    pub open spec fn wf(&self) -> bool {
        &&& self.type_names().no_duplicates()
        &&& self@.consistent()
        &&& self.indexed()
    }

    /// The statistics of an author to whom no line has been attributed.
    pub fn new() -> (stats: AuthorStats)
        ensures
            stats.wf(),
            stats@ == AuthorTally::empty(),
    {
        let stats = AuthorStats {
            lines: NumberOfLines(0),
            file_types: Vec::new(),
            places: StringHashMap::new(),
        };
        proof {
            lemma_empty_is_consistent();
            assert(stats@.file_types =~= Map::<Seq<char>, nat>::empty());
        }
        stats
    }

    /// The place of the entry for `file_type`, if there is one.
    fn position_of(&self, file_type: &str) -> (found: Option<usize>)
        requires
            self.indexed(),
        ensures
            match found {
                Some(i) => i < self.file_types.len() && self.type_names()[i as int] == file_type@,
                None => !self.type_names().contains(file_type@),
            },
    {
        match self.places.get(file_type) {
            Some(place) => Some(*place),
            None => {
                proof {
                    if self.type_names().contains(file_type@) {
                        let i = self.type_names().index_of(file_type@);
                        assert(self.places@.contains_key(self.type_names()[i]));
                    }
                }
                None
            },
        }
    }

    /// Attributes one more line, in a file of the given type, to this author. The entries
    /// stay in their places; a file type not seen before gets an entry at the end.
    pub fn increment(&mut self, file_type: &str)
        requires
            old(self).wf(),
            old(self).lines.0 < u32::MAX,
        ensures
            final(self).wf(),
            final(self)@ == old(self)@.incremented(file_type@),
            final(self).type_names() == (if old(self).type_names().contains(file_type@) {
                old(self).type_names()
            } else {
                old(self).type_names().push(file_type@)
            }),
    {
        let ghost names = self.type_names();
        let ghost counts = self.type_counts();
        proof {
            lemma_author_increment_keeps_consistency(self@, file_type@);
        }
        match self.position_of(file_type) {
            Some(i) => {
                proof {
                    lemma_assoc_at(names, counts, i as int);
                    lemma_sum_of_bounds_each(self@.file_types, file_type@);
                    lemma_assoc_update(names, counts, i as int, counts[i as int] + 1);
                }
                self.file_types[i].1.0 = self.file_types[i].1.0 + 1;
                proof {
                    assert(self.type_names() =~= names);
                    assert(self.type_counts() =~= counts.update(i as int, counts[i as int] + 1));
                }
            },
            None => {
                proof {
                    lemma_assoc_push(names, counts, file_type@, 1nat);
                    assert(names.len() == self.file_types.len());
                    lemma_gives_places_push(self.places@, names, file_type@);
                }
                let place = self.file_types.len();
                self.file_types.push((FileType(file_type.to_owned()), NumberOfLines(1)));
                self.places.insert(file_type.to_owned(), place);
                proof {
                    assert(self.type_names() =~= names.push(file_type@));
                    assert(self.type_counts() =~= counts.push(1nat));
                }
            },
        }
        self.lines.add_assign(NumberOfLines(1));
        proof {
            assert(self@.file_types =~= old(self)@.incremented(file_type@).file_types);
        }
    }
}

/// The name and the line count of each entry of a list of file types.
pub open spec fn type_keys(ranking: Seq<(&FileType, &NumberOfLines)>) -> Seq<(Seq<char>, nat)> {
    ranking.map_values(|entry: (&FileType, &NumberOfLines)| (entry.0.0@, entry.1.0 as nat))
}

/// The email and the line total of each entry of a list of authors.
pub open spec fn author_keys(ranking: Seq<(&Author, &AuthorStats)>) -> Seq<(Seq<char>, nat)> {
    ranking.map_values(|entry: (&Author, &AuthorStats)| (entry.0.email@, entry.1.lines.0 as nat))
}

/// Whether the entry stands in the list of authors.
pub open spec fn lists_entry(ranking: Seq<(&Author, &AuthorStats)>, entry: (Author, AuthorStats)) -> bool {
    exists|i: int|
        0 <= i < ranking.len() && *(#[trigger] ranking[i]).0 == entry.0 && *ranking[i].1 == entry.1
}

/// The email of each entry of a list of authors with the line count that the entry gives.
pub open spec fn author_count_keys(ranking: Seq<(&Author, &NumberOfLines)>) -> Seq<
    (Seq<char>, nat),
> {
    ranking.map_values(|entry: (&Author, &NumberOfLines)| (entry.0.email@, entry.1.0 as nat))
}

impl AuthorStats {
    /// The counts and the names of the file types, in the order of the entries.
    fn ranking_keys(&self) -> (keys: (Vec<u32>, Vec<Vec<char>>))
        ensures
            keys.0.len() == self.file_types.len(),
            keys.1.len() == self.file_types.len(),
            counts_of(keys.0@) == self.type_counts(),
            names_of(keys.1@) == self.type_names(),
    {
        let mut counts: Vec<u32> = Vec::new();
        let mut names: Vec<Vec<char>> = Vec::new();
        let mut k: usize = 0;
        while k < self.file_types.len()
            invariant
                k <= self.file_types.len(),
                counts.len() == k,
                names.len() == k,
                forall|t: int| 0 <= t < k ==> counts[t] == self.file_types[t].1.0,
                forall|t: int| 0 <= t < k ==> names[t]@ == self.file_types[t].0.0@,
            decreases self.file_types.len() - k,
        {
            counts.push(self.file_types[k].1.0);
            names.push(chars_of(self.file_types[k].0.0.as_str()));
            k += 1;
        }
        proof {
            assert(counts_of(counts@) =~= self.type_counts());
            assert(names_of(names@) =~= self.type_names());
        }
        (counts, names)
    }

    /// This author's file types, ranked: the type with the most lines first, and of two
    /// types with the same count the one whose name is lexicographically smaller.
    pub fn sorted_file_types(&self) -> (ranking: Vec<(&FileType, &NumberOfLines)>)
        requires
            self.wf(),
        ensures
            is_ranking_of(type_keys(ranking@), self@.file_types),
    {
        let (counts, names) = self.ranking_keys();
        let order = rank_order(&counts, &names);
        let mut ranking: Vec<(&FileType, &NumberOfLines)> = Vec::new();
        let mut i: usize = 0;
        while i < order.len()
            invariant
                i <= order.len(),
                ranking.len() == i,
                is_index_order(order@, self.file_types.len() as nat),
                forall|j: int|
                    0 <= j < i ==> *(#[trigger] ranking[j]).0 == self.file_types[order[j] as int].0
                        && *ranking[j].1 == self.file_types[order[j] as int].1,
            decreases order.len() - i,
        {
            let t = order[i];
            ranking.push((&self.file_types[t].0, &self.file_types[t].1));
            i += 1;
        }
        proof {
            lemma_order_is_ranking(counts@, names@, order@);
            assert forall|i: int| 0 <= i < ranking.len() implies type_keys(ranking@)[i]
                == in_order(counts@, names@, order@)[i] by {
                let t = order[i] as int;
                assert(names_of(names@)[t] == self.type_names()[t]);
                assert(counts_of(counts@)[t] == self.type_counts()[t]);
            }
            assert(type_keys(ranking@) =~= in_order(counts@, names@, order@));
        }
        ranking
    }
}

impl View for RepoStats {
    type V = RepoTally;

    open spec fn view(&self) -> RepoTally {
        RepoTally {
            authors: assoc(self.emails(), self.tallies()),
            total_lines: self.total_lines.0 as nat,
        }
    }
}

impl RepoStats {
    /// The emails of the authors, in the order of the entries.
    pub open spec fn emails(&self) -> Seq<Seq<char>> {
        self.author_stats@.map_values(|entry: (Author, AuthorStats)| entry.0.email@)
    }

    /// The tallies of the authors, in the order of the entries.
    pub open spec fn tallies(&self) -> Seq<AuthorTally> {
        self.author_stats@.map_values(|entry: (Author, AuthorStats)| entry.1@)
    }

    /// Whether the hash map gives each author the place among the entries.
    pub open spec fn indexed(&self) -> bool {
        gives_places(self.places@, self.emails())
    }

    /// No author has two entries, no author has two entries for one file type, each entry
    /// counts one line at least, each author's per-type counts add up to that author's
    /// total, the authors' totals add up to the grand total, and the hash maps give each
    /// author and each file type its place.
    pub open spec fn wf(&self) -> bool {
        &&& self.emails().no_duplicates()
        &&& self.indexed()
        &&& forall|i: int|
            0 <= i < self.author_stats.len() ==> (#[trigger] self.author_stats[i]).1.wf()
        &&& self@.consistent()
    }

    /// The statistics of a repository in which no line has been attributed yet.
    pub fn new() -> (stats: RepoStats)
        ensures
            stats.wf(),
            stats@ == RepoTally::empty(),
            stats@ == aggregate(Seq::empty()),
    {
        let stats = RepoStats {
            author_stats: Vec::new(),
            total_lines: NumberOfLines(0),
            places: StringHashMap::new(),
        };
        proof {
            lemma_empty_is_consistent();
            assert(stats@.authors =~= Map::<Seq<char>, AuthorTally>::empty());
        }
        stats
    }

    /// The place of the entry for the author with this email, if there is one.
    fn position_of(&self, author_email: &str) -> (found: Option<usize>)
        requires
            self.indexed(),
        ensures
            match found {
                Some(i) => i < self.author_stats.len() && self.emails()[i as int]
                    == author_email@,
                None => !self.emails().contains(author_email@),
            },
    {
        match self.places.get(author_email) {
            Some(place) => Some(*place),
            None => {
                proof {
                    if self.emails().contains(author_email@) {
                        let i = self.emails().index_of(author_email@);
                        assert(self.places@.contains_key(self.emails()[i]));
                    }
                }
                None
            },
        }
    }

    /// Attributes one more line to the author with this email, in a file with this
    /// extension: the grand total, the author's total and the author's count for the file
    /// type each grow by one. The entries stay in their places; an author or a file type
    /// not seen before gets an entry at the end.
    pub fn increment_lines(&mut self, author_email: &str, file_extension: Option<&str>)
        requires
            old(self).wf(),
            old(self).total_lines.0 < u32::MAX,
        ensures
            final(self).wf(),
            final(self)@ == old(self)@.incremented(author_email@, file_type_name(file_extension)),
            final(self).emails() == (if old(self).emails().contains(author_email@) {
                old(self).emails()
            } else {
                old(self).emails().push(author_email@)
            }),
            forall|observations: Seq<(Seq<char>, Seq<char>)>|
                old(self)@ == #[trigger] aggregate(observations) ==> final(self)@ == aggregate(
                    observations.push((author_email@, file_type_name(file_extension))),
                ),
    {
        let file_type: &str = match file_extension {
            Some(extension) => extension,
            None => "Unknown",
        };
        let ghost emails = self.emails();
        let ghost tallies = self.tallies();
        let ghost next = self@.incremented(author_email@, file_type@);
        proof {
            lemma_increment_keeps_consistency(self@, author_email@, file_type@);
        }
        match self.position_of(author_email) {
            Some(i) => {
                proof {
                    lemma_assoc_at(emails, tallies, i as int);
                    assert(self@.author_lines().dom() =~= self@.authors.dom());
                    lemma_sum_of_bounds_each(self@.author_lines(), author_email@);
                    lemma_assoc_update(emails, tallies, i as int, next.authors[author_email@]);
                }
                self.author_stats[i].1.increment(file_type);
                proof {
                    assert(self.emails() =~= emails);
                    assert(self.tallies() =~= tallies.update(
                        i as int,
                        next.authors[author_email@],
                    ));
                }
            },
            None => {
                let mut stats = AuthorStats::new();
                stats.increment(file_type);
                proof {
                    lemma_assoc_push(emails, tallies, author_email@, stats@);
                    assert(emails.len() == self.author_stats.len());
                    lemma_gives_places_push(self.places@, emails, author_email@);
                }
                let place = self.author_stats.len();
                self.author_stats.push((Author { email: author_email.to_owned() }, stats));
                self.places.insert(author_email.to_owned(), place);
                proof {
                    assert(self.emails() =~= emails.push(author_email@));
                    assert(self.tallies() =~= tallies.push(next.authors[author_email@]));
                }
            },
        }
        self.total_lines.add_assign(NumberOfLines(1));
        proof {
            assert(self@.authors =~= next.authors);
            assert forall|observations: Seq<(Seq<char>, Seq<char>)>|
                old(self)@ == #[trigger] aggregate(observations) implies self@ == aggregate(
                observations.push((author_email@, file_type@)),
            ) by {
                lemma_aggregate_step(observations, (author_email@, file_type@));
            }
        }
    }
}

impl RepoStats {
    /// The line totals of the authors, in the order of the entries.
    pub open spec fn line_totals(&self) -> Seq<nat> {
        self.author_stats@.map_values(|entry: (Author, AuthorStats)| entry.1.lines.0 as nat)
    }

    /// `author` and `stats` are one of the entries.
    pub open spec fn holds(&self, author: &Author, stats: &AuthorStats) -> bool {
        exists|k: int|
            0 <= k < self.author_stats.len() && (#[trigger] self.author_stats[k]).0 == *author
                && self.author_stats[k].1 == *stats
    }

    /// The email of each listed author with that author's line total.
    pub open spec fn listed_authors(
        &self,
        listing: Seq<(&Author, Vec<(&FileType, &NumberOfLines)>)>,
    ) -> Seq<(Seq<char>, nat)> {
        listing.map_values(
            |entry: (&Author, Vec<(&FileType, &NumberOfLines)>)|
                (entry.0.email@, self@.tally_of(entry.0.email@).lines),
        )
    }

    proof fn lemma_author_lines(&self)
        ensures
            self@.author_lines() == assoc(self.emails(), self.line_totals()),
    {
        assert forall|email: Seq<char>| self.emails().contains(email) implies self.tallies()[self.emails().index_of(
            email,
        )].lines == self.line_totals()[self.emails().index_of(email)] by {
            let t = self.emails().index_of(email);
            assert(0 <= t < self.emails().len());
        }
        assert(self@.author_lines() =~= assoc(self.emails(), self.line_totals()));
    }

    /// The line totals and the emails of the authors, in the order of the entries.
    fn ranking_keys(&self) -> (keys: (Vec<u32>, Vec<Vec<char>>))
        ensures
            keys.0.len() == self.author_stats.len(),
            keys.1.len() == self.author_stats.len(),
            counts_of(keys.0@) == self.line_totals(),
            names_of(keys.1@) == self.emails(),
    {
        let mut counts: Vec<u32> = Vec::new();
        let mut names: Vec<Vec<char>> = Vec::new();
        let mut k: usize = 0;
        while k < self.author_stats.len()
            invariant
                k <= self.author_stats.len(),
                counts.len() == k,
                names.len() == k,
                forall|t: int| 0 <= t < k ==> counts[t] == self.author_stats[t].1.lines.0,
                forall|t: int| 0 <= t < k ==> names[t]@ == self.author_stats[t].0.email@,
            decreases self.author_stats.len() - k,
        {
            counts.push(self.author_stats[k].1.lines.0);
            names.push(chars_of(self.author_stats[k].0.email.as_str()));
            k += 1;
        }
        proof {
            assert(counts_of(counts@) =~= self.line_totals());
            assert(names_of(names@) =~= self.emails());
        }
        (counts, names)
    }

    /// Attributes one more line as `increment_lines` does, unless the grand total stands at
    /// the largest number that it can hold; says whether the line was counted. Statistics
    /// that are not counted stay as they are.
    pub fn try_increment_lines(&mut self, author_email: &str, file_extension: Option<&str>) -> (counted:
        bool)
        requires
            old(self).wf(),
        ensures
            final(self).wf(),
            counted == (old(self).total_lines.0 < u32::MAX),
            counted ==> final(self)@ == old(self)@.incremented(
                author_email@,
                file_type_name(file_extension),
            ),
            !counted ==> *final(self) == *old(self),
    {
        if self.total_lines.0 < u32::MAX {
            self.increment_lines(author_email, file_extension);
            true
        } else {
            false
        }
    }

    /// The entries that the indices of `order` stand for, as emails and line totals.
    pub open spec fn keys_in(&self, order: Seq<usize>) -> Seq<(Seq<char>, nat)> {
        Seq::new(
            order.len(),
            |i: int| (self.emails()[order[i] as int], self.line_totals()[order[i] as int]),
        )
    }

    /// The places of the authors in ranking order.
    fn author_order(&self) -> (order: Vec<usize>)
        ensures
            is_index_order(order@, self.author_stats.len() as nat),
            forall|i: int, j: int|
                0 <= i < j < order.len() ==> !ranks_before(
                    #[trigger] self.keys_in(order@)[j],
                    #[trigger] self.keys_in(order@)[i],
                ),
            self.wf() ==> is_ranking_of(self.keys_in(order@), self@.author_lines()),
    {
        let (counts, names) = self.ranking_keys();
        let order = rank_order(&counts, &names);
        proof {
            assert forall|i: int| 0 <= i < order.len() implies self.keys_in(order@)[i]
                == in_order(counts@, names@, order@)[i] by {
                let t = order[i] as int;
                assert(names_of(names@)[t] == self.emails()[t]);
                assert(counts_of(counts@)[t] == self.line_totals()[t]);
            }
            assert(self.keys_in(order@) =~= in_order(counts@, names@, order@));
            assert forall|i: int, j: int| 0 <= i < j < order.len() implies !ranks_before(
                #[trigger] self.keys_in(order@)[j],
                #[trigger] self.keys_in(order@)[i],
            ) by {
                assert(!ranks_before(
                    key_at(counts@, names@, order[j] as int),
                    key_at(counts@, names@, order[i] as int),
                ));
            }
            if self.wf() {
                lemma_order_is_ranking(counts@, names@, order@);
                self.lemma_author_lines();
            }
        }
        order
    }

    /// The authors, ranked: the author with the most lines first, and of two authors with
    /// the same total the one whose email is lexicographically smaller. Every entry is
    /// listed, and the totals never grow from one entry to the next, whatever the
    /// statistics hold; where they are well formed, the list is the ranking of the authors
    /// by their totals.
    pub fn sorted_authors(&self) -> (ranking: Vec<(&Author, &AuthorStats)>)
        ensures
            ranking.len() == self.author_stats.len(),
            forall|i: int|
                0 <= i < ranking.len() ==> self.holds(
                    (#[trigger] ranking[i]).0,
                    ranking[i].1,
                ),
            forall|k: int|
                0 <= k < self.author_stats.len() ==> lists_entry(
                    ranking@,
                    #[trigger] self.author_stats[k],
                ),
            forall|i: int, j: int|
                0 <= i <= j < ranking.len() ==> (#[trigger] ranking[i]).1.lines.0 >= (
                #[trigger] ranking[j]).1.lines.0,
            forall|i: int, j: int|
                0 <= i < j < ranking.len() ==> !ranks_before(
                    #[trigger] author_keys(ranking@)[j],
                    #[trigger] author_keys(ranking@)[i],
                ),
            self.wf() ==> is_ranking_of(author_keys(ranking@), self@.author_lines()),
    {
        let order = self.author_order();
        let mut ranking: Vec<(&Author, &AuthorStats)> = Vec::new();
        let mut i: usize = 0;
        while i < order.len()
            invariant
                i <= order.len(),
                ranking.len() == i,
                is_index_order(order@, self.author_stats.len() as nat),
                forall|j: int|
                    0 <= j < i ==> *(#[trigger] ranking[j]).0 == self.author_stats[order[j] as int].0
                        && *ranking[j].1 == self.author_stats[order[j] as int].1,
            decreases order.len() - i,
        {
            let t = order[i];
            ranking.push((&self.author_stats[t].0, &self.author_stats[t].1));
            i += 1;
        }
        proof {
            assert(author_keys(ranking@) =~= self.keys_in(order@));
            assert forall|i: int, j: int| 0 <= i <= j < ranking.len() implies (
            #[trigger] ranking[i]).1.lines.0 >= (#[trigger] ranking[j]).1.lines.0 by {
                let keys = author_keys(ranking@);
                if i < j {
                    assert(!ranks_before(keys[j], keys[i]));
                }
            }
            assert forall|i: int| 0 <= i < ranking.len() implies self.holds(
                (#[trigger] ranking[i]).0,
                ranking[i].1,
            ) by {
                let k = order[i] as int;
                assert(self.author_stats[k].0 == *ranking[i].0);
            }
            assert forall|k: int| 0 <= k < self.author_stats.len() implies lists_entry(
                ranking@,
                #[trigger] self.author_stats[k],
            ) by {
                assert(order@.contains(k as usize));
                let i = order@.index_of(k as usize);
                assert(*ranking[i].0 == self.author_stats[k].0);
            }
        }
        ranking
    }

    /// For each author, in the order of the authors' ranking, the author's file types,
    /// ranked in turn: the type with the most lines first, and of two types with the same
    /// count the one whose name is lexicographically smaller.
    pub fn sorted_file_types_by_author(&self) -> (listing: Vec<
        (&Author, Vec<(&FileType, &NumberOfLines)>),
    >)
        requires
            self.wf(),
        ensures
            is_ranking_of(self.listed_authors(listing@), self@.author_lines()),
            forall|i: int|
                0 <= i < listing.len() ==> is_ranking_of(
                    type_keys((#[trigger] listing[i]).1@),
                    self@.tally_of(listing[i].0.email@).file_types,
                ),
    {
        let order = self.author_order();
        let mut listing: Vec<(&Author, Vec<(&FileType, &NumberOfLines)>)> = Vec::new();
        let mut i: usize = 0;
        while i < order.len()
            invariant
                i <= order.len(),
                listing.len() == i,
                self.wf(),
                is_index_order(order@, self.author_stats.len() as nat),
                forall|j: int|
                    0 <= j < i ==> *(#[trigger] listing[j]).0 == self.author_stats[order[j] as int].0
                        && is_ranking_of(
                        type_keys(listing[j].1@),
                        self.author_stats[order[j] as int].1@.file_types,
                    ),
            decreases order.len() - i,
        {
            let t = order[i];
            let file_types = self.author_stats[t].1.sorted_file_types();
            listing.push((&self.author_stats[t].0, file_types));
            i += 1;
        }
        proof {
            assert forall|j: int| 0 <= j < listing.len() implies self@.tally_of(
                (#[trigger] listing[j]).0.email@,
            ) == self.author_stats[order[j] as int].1@ by {
                lemma_assoc_at(self.emails(), self.tallies(), order[j] as int);
            }
            assert(self.listed_authors(listing@) =~= self.keys_in(order@));
        }
        listing
    }
}

impl RepoStats {
    /// Entry `j` of author `a` counts `count` lines of the file type, and `name` is that
    /// author's email.
    spec fn is_member(&self, file_type: Seq<char>, a: int, j: int, count: u32, name: Seq<char>) -> bool {
        &&& 0 <= a < self.author_stats.len()
        &&& 0 <= j < self.author_stats[a].1.file_types.len()
        &&& self.author_stats[a].1.type_names()[j] == file_type
        &&& self.author_stats[a].1.file_types[j].1.0 == count
        &&& self.emails()[a] == name
    }

    /// A member is an entry of the mapping from the authors that have lines of the file
    /// type to their counts.
    proof fn lemma_member(&self, file_type: Seq<char>, a: int, j: int, count: u32, name: Seq<char>)
        requires
            self.wf(),
            self.is_member(file_type, a, j, count, name),
        ensures
            self@.has_lines_of(name, file_type),
            self@.authors_of_type(file_type)[name] == count,
            self@.file_types().contains(file_type),
    {
        let stats = self.author_stats[a].1;
        lemma_assoc_at(self.emails(), self.tallies(), a);
        lemma_assoc_at(stats.type_names(), stats.type_counts(), j);
        assert(self@.has_lines_of(name, file_type));
    }

    /// An author that has lines of the file type has an entry for it.
    proof fn lemma_has_lines(&self, email: Seq<char>, file_type: Seq<char>)
        requires
            self.wf(),
            self@.has_lines_of(email, file_type),
        ensures
            self.emails().contains(email),
            self.author_stats[self.emails().index_of(email)].1.type_names().contains(file_type),
    {
        let a = self.emails().index_of(email);
        lemma_assoc_at(self.emails(), self.tallies(), a);
    }

    /// The authors that have lines of the given file type, ranked by the count of those
    /// lines: the highest count first, and of two authors with the same count the one
    /// whose email is lexicographically smaller.
    pub fn sorted_authors_of_file_type(&self, file_type: &str) -> (ranking: Vec<
        (&Author, &NumberOfLines),
    >)
        requires
            self.wf(),
        ensures
            is_ranking_of(author_count_keys(ranking@), self@.authors_of_type(file_type@)),
    {
        let n = self.author_stats.len();
        let mut members: Vec<usize> = Vec::new();
        let mut positions: Vec<usize> = Vec::new();
        let mut counts: Vec<u32> = Vec::new();
        let mut names: Vec<Vec<char>> = Vec::new();
        let mut a: usize = 0;
        while a < n
            invariant
                a <= n,
                n == self.author_stats.len(),
                self.wf(),
                members.len() == positions.len(),
                members.len() == counts.len(),
                members.len() == names.len(),
                forall|x: int|
                    0 <= x < members.len() ==> (#[trigger] members[x]) < a && self.is_member(
                        file_type@,
                        members[x] as int,
                        positions[x] as int,
                        counts[x],
                        names[x]@,
                    ),
                forall|x: int, y: int|
                    0 <= x < y < members.len() ==> (#[trigger] members[x]) < (
                    #[trigger] members[y]),
                forall|b: int|
                    0 <= b < a && (#[trigger] self.author_stats[b]).1.type_names().contains(
                        file_type@,
                    ) ==> members@.contains(b as usize),
            decreases n - a,
        {
            match self.author_stats[a].1.position_of(file_type) {
                Some(j) => {
                    let ghost before = members@;
                    members.push(a);
                    positions.push(j);
                    counts.push(self.author_stats[a].1.file_types[j].1.0);
                    names.push(chars_of(self.author_stats[a].0.email.as_str()));
                    proof {
                        assert forall|b: int|
                            0 <= b < a + 1 && (#[trigger] self.author_stats[b]).1.type_names().contains(
                                file_type@,
                            ) implies members@.contains(b as usize) by {
                            if b < a {
                                assert(before.contains(b as usize));
                                let x = before.index_of(b as usize);
                                assert(members@[x] == b as usize);
                            } else {
                                assert(members@[before.len() as int] == b as usize);
                            }
                        }
                    }
                },
                None => {},
            }
            a += 1;
        }
        let order = rank_order(&counts, &names);
        let mut ranking: Vec<(&Author, &NumberOfLines)> = Vec::new();
        let mut i: usize = 0;
        while i < order.len()
            invariant
                i <= order.len(),
                ranking.len() == i,
                members.len() == positions.len(),
                members.len() == counts.len(),
                members.len() == names.len(),
                is_index_order(order@, members.len() as nat),
                forall|x: int|
                    0 <= x < members.len() ==> self.is_member(
                        file_type@,
                        (#[trigger] members[x]) as int,
                        positions[x] as int,
                        counts[x],
                        names[x]@,
                    ),
                forall|k: int|
                    0 <= k < i ==> (#[trigger] ranking[k]).0.email@ == names[order[k] as int]@
                        && ranking[k].1.0 == counts[order[k] as int],
            decreases order.len() - i,
        {
            let x = order[i];
            let member = members[x];
            let position = positions[x];
            assert(self.is_member(
                file_type@,
                members[x as int] as int,
                positions[x as int] as int,
                counts[x as int],
                names[x as int]@,
            ));
            ranking.push(
                (&self.author_stats[member].0, &self.author_stats[member].1.file_types[position].1),
            );
            i += 1;
        }
        proof {
            let keys = names_of(names@);
            let values = counts_of(counts@);
            let by_type = self@.authors_of_type(file_type@);
            assert forall|x: int, y: int| 0 <= x < keys.len() && 0 <= y < keys.len() && x
                != y implies keys[x] != keys[y] by {
                assert(members[x] != members[y]);
                assert(self.is_member(
                    file_type@,
                    members[x] as int,
                    positions[x] as int,
                    counts[x],
                    names[x]@,
                ));
                assert(self.is_member(
                    file_type@,
                    members[y] as int,
                    positions[y] as int,
                    counts[y],
                    names[y]@,
                ));
            }
            assert forall|email: Seq<char>| keys.contains(email) <==> by_type.dom().contains(
                email,
            ) by {
                if keys.contains(email) {
                    let x = keys.index_of(email);
                    self.lemma_member(
                        file_type@,
                        members[x] as int,
                        positions[x] as int,
                        counts[x],
                        names[x]@,
                    );
                }
                if by_type.dom().contains(email) {
                    self.lemma_has_lines(email, file_type@);
                    let b = self.emails().index_of(email);
                    assert(self.author_stats[b].1.type_names().contains(file_type@));
                    assert(members@.contains(b as usize));
                    let x = members@.index_of(b as usize);
                    assert(self.is_member(
                        file_type@,
                        members[x] as int,
                        positions[x] as int,
                        counts[x],
                        names[x]@,
                    ));
                    assert(keys[x] == email);
                }
            }
            assert forall|email: Seq<char>| keys.contains(email) implies values[keys.index_of(
                email,
            )] == by_type[email] by {
                let x = keys.index_of(email);
                self.lemma_member(
                    file_type@,
                    members[x] as int,
                    positions[x] as int,
                    counts[x],
                    names[x]@,
                );
            }
            assert(assoc(keys, values) =~= by_type);
            lemma_order_is_ranking(counts@, names@, order@);
            assert(author_count_keys(ranking@) =~= in_order(counts@, names@, order@));
        }
        ranking
    }

    /// Whether one of the listed file types has this name.
    fn lists(types: &Vec<&FileType>, name: &String) -> (listed: bool)
        ensures
            listed == exists|t: int| 0 <= t < types.len() && (#[trigger] types[t]).0@ == name@,
    {
        let mut t: usize = 0;
        while t < types.len()
            invariant
                t <= types.len(),
                forall|u: int| 0 <= u < t ==> (#[trigger] types[u]).0@ != name@,
            decreases types.len() - t,
        {
            if types[t].0 == *name {
                return true;
            }
            t += 1;
        }
        false
    }

    /// The file types of which some author has lines, each once, with the characters of
    /// their names.
    fn distinct_file_types(&self) -> (found: (Vec<&FileType>, Vec<Vec<char>>))
        requires
            self.wf(),
        ensures
            found.0.len() == found.1.len(),
            forall|t: int| 0 <= t < found.0.len() ==> (#[trigger] found.1[t])@ == found.0[t].0@,
            names_of(found.1@).no_duplicates(),
            forall|t: int|
                0 <= t < found.1.len() ==> self@.file_types().contains((#[trigger] found.1[t])@),
            forall|file_type: Seq<char>| #[trigger]
                self@.file_types().contains(file_type) ==> names_of(found.1@).contains(
                    file_type,
                ),
    {
        let mut types: Vec<&FileType> = Vec::new();
        let mut names: Vec<Vec<char>> = Vec::new();
        let mut a: usize = 0;
        while a < self.author_stats.len()
            invariant
                a <= self.author_stats.len(),
                self.wf(),
                types.len() == names.len(),
                forall|t: int| 0 <= t < types.len() ==> (#[trigger] names[t])@ == types[t].0@,
                names_of(names@).no_duplicates(),
                forall|t: int|
                    0 <= t < names.len() ==> self@.file_types().contains((#[trigger] names[t])@),
                forall|b: int, j: int|
                    0 <= b < a && 0 <= j < self.author_stats[b].1.file_types.len() ==> names_of(
                        names@,
                    ).contains(#[trigger] self.author_stats[b].1.type_names()[j]),
            decreases self.author_stats.len() - a,
        {
            let stats = &self.author_stats[a].1;
            let mut j: usize = 0;
            while j < stats.file_types.len()
                invariant
                    a < self.author_stats.len(),
                    *stats == self.author_stats[a as int].1,
                    j <= stats.file_types.len(),
                    self.wf(),
                    types.len() == names.len(),
                    forall|t: int| 0 <= t < types.len() ==> (#[trigger] names[t])@ == types[t].0@,
                    names_of(names@).no_duplicates(),
                    forall|t: int|
                        0 <= t < names.len() ==> self@.file_types().contains(
                            (#[trigger] names[t])@,
                        ),
                    forall|b: int, i: int|
                        0 <= b < a && 0 <= i < self.author_stats[b].1.file_types.len()
                            ==> names_of(names@).contains(
                            #[trigger] self.author_stats[b].1.type_names()[i],
                        ),
                    forall|i: int|
                        0 <= i < j ==> names_of(names@).contains(#[trigger] stats.type_names()[i]),
                decreases stats.file_types.len() - j,
            {
                let file_type = &stats.file_types[j].0;
                let ghost name = file_type.0@;
                let ghost before = names_of(names@);
                let listed = Self::lists(&types, &file_type.0);
                if !listed {
                    types.push(file_type);
                    names.push(chars_of(file_type.0.as_str()));
                }
                proof {
                    let after = names_of(names@);
                    assert(stats.type_names()[j as int] == name);
                    if listed {
                        let t = choose|t: int| 0 <= t < types.len() && (#[trigger] types[t]).0@ == name;
                        assert(after[t] == name);
                    } else {
                        assert(after =~= before.push(name));
                        assert(!before.contains(name)) by {
                            if before.contains(name) {
                                let t = before.index_of(name);
                                assert(types[t].0@ == name);
                            }
                        }
                        assert(after[before.len() as int] == name);
                        self.lemma_member(
                            name,
                            a as int,
                            j as int,
                            stats.file_types[j as int].1.0,
                            self.emails()[a as int],
                        );
                        assert forall|other: Seq<char>| before.contains(other) implies after.contains(
                            other,
                        ) by {
                            let t = before.index_of(other);
                            assert(after[t] == other);
                        }
                    }
                    assert(after.contains(name));
                }
                j += 1;
            }
            a += 1;
        }
        proof {
            assert forall|file_type: Seq<char>| #[trigger]
                self@.file_types().contains(file_type) implies names_of(names@).contains(
                file_type,
            ) by {
                let email = choose|email: Seq<char>| #[trigger] self@.has_lines_of(email, file_type);
                self.lemma_has_lines(email, file_type);
                let b = self.emails().index_of(email);
                let j = self.author_stats[b].1.type_names().index_of(file_type);
                assert(self.author_stats[b].1.type_names()[j] == file_type);
            }
        }
        (types, names)
    }

    /// For each file type, the authors that have lines of that type, ranked by the count of
    /// those lines: the highest count first, and of two authors with the same count the one
    /// whose email is lexicographically smaller. The file types come in the lexicographic
    /// order of their names, each once.
    pub fn sorted_authors_by_file_type(&self) -> (listing: Vec<
        (&FileType, Vec<(&Author, &NumberOfLines)>),
    >)
        requires
            self.wf(),
        ensures
            forall|k: int|
                0 <= k < listing.len() ==> self@.file_types().contains(
                    (#[trigger] listing[k]).0.0@,
                ),
            forall|file_type: Seq<char>| #[trigger]
                self@.file_types().contains(file_type) ==> exists|k: int|
                    0 <= k < listing.len() && (#[trigger] listing[k]).0.0@ == file_type,
            forall|k: int, l: int|
                0 <= k < l < listing.len() ==> lex_less(
                    (#[trigger] listing[k]).0.0@,
                    (#[trigger] listing[l]).0.0@,
                ),
            forall|k: int|
                0 <= k < listing.len() ==> is_ranking_of(
                    author_count_keys((#[trigger] listing[k]).1@),
                    self@.authors_of_type(listing[k].0.0@),
                ),
    {
        let (types, names) = self.distinct_file_types();
        let mut zeros: Vec<u32> = Vec::new();
        let mut t: usize = 0;
        while t < types.len()
            invariant
                t <= types.len(),
                zeros.len() == t,
                forall|u: int| 0 <= u < t ==> zeros[u] == 0,
            decreases types.len() - t,
        {
            zeros.push(0);
            t += 1;
        }
        let order = rank_order(&zeros, &names);
        let mut listing: Vec<(&FileType, Vec<(&Author, &NumberOfLines)>)> = Vec::new();
        let mut k: usize = 0;
        while k < order.len()
            invariant
                k <= order.len(),
                listing.len() == k,
                self.wf(),
                types.len() == names.len(),
                is_index_order(order@, types.len() as nat),
                forall|t: int| 0 <= t < types.len() ==> (#[trigger] names[t])@ == types[t].0@,
                forall|l: int|
                    0 <= l < k ==> (#[trigger] listing[l]).0.0@ == names[order[l] as int]@
                        && is_ranking_of(
                        author_count_keys(listing[l].1@),
                        self@.authors_of_type(listing[l].0.0@),
                    ),
            decreases order.len() - k,
        {
            let file_type: &FileType = types[order[k]];
            let authors = self.sorted_authors_of_file_type(file_type.0.as_str());
            listing.push((file_type, authors));
            k += 1;
        }
        proof {
            lemma_order_is_ranking(zeros@, names@, order@);
            let ranking = in_order(zeros@, names@, order@);
            let keys = names_of(names@);
            assert forall|k: int, l: int| 0 <= k < l < listing.len() implies lex_less(
                (#[trigger] listing[k]).0.0@,
                (#[trigger] listing[l]).0.0@,
            ) by {
                assert(ranks_before(ranking[k], ranking[l]));
            }
            assert forall|file_type: Seq<char>| #[trigger]
                self@.file_types().contains(file_type) implies exists|k: int|
                0 <= k < listing.len() && (#[trigger] listing[k]).0.0@ == file_type by {
                assert(keys.contains(file_type));
                assert(assoc(keys, counts_of(zeros@)).dom().contains(file_type));
                let k = choose|k: int| 0 <= k < ranking.len() && (#[trigger] ranking[k]).0 == file_type;
                assert(listing[k].0.0@ == file_type);
            }
        }
        listing
    }
}

/// In statistics that are well formed the authors' totals add up to the grand total.
pub proof fn lemma_author_totals_add_up(stats: &RepoStats)
    requires
        stats.wf(),
    ensures
        sum_of(stats@.author_lines()) == stats@.total_lines,
{
}

/// In statistics that are well formed each author's counts per file type add up to that
/// author's total.
pub proof fn lemma_file_type_counts_add_up(stats: &RepoStats, email: Seq<char>)
    requires
        stats.wf(),
        stats@.authors.dom().contains(email),
    ensures
        sum_of(stats@.authors[email].file_types) == stats@.authors[email].lines,
{
}

/// Statistics that hold the same and then take the same observation hold the same
/// afterwards, whatever the order of their entries: the same grand total, the same authors,
/// and for each author the same total and the same counts per file type.
pub proof fn lemma_equal_stats_stay_equal(
    one: &RepoStats,
    other: &RepoStats,
    one_after: &RepoStats,
    other_after: &RepoStats,
    author_email: Seq<char>,
    file_type: Seq<char>,
)
    requires
        one@ == other@,
        one_after@ == one@.incremented(author_email, file_type),
        other_after@ == other@.incremented(author_email, file_type),
    ensures
        one_after@ == other_after@,
{
}

/// Statistics that were fed the same observations, each from its start without any line,
/// hold the same: the same grand total, the same authors, and for each author the same
/// total and the same counts per file type.
pub proof fn lemma_same_observations_same_stats(
    one: &RepoStats,
    other: &RepoStats,
    observations: Seq<(Seq<char>, Seq<char>)>,
)
    requires
        one@ == aggregate(observations),
        other@ == aggregate(observations),
    ensures
        one@ == other@,
{
}

} // verus!
