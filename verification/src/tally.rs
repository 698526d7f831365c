use vstd::prelude::*;

verus! {

/// The sum of the counts that a finite mapping holds.
pub open spec fn sum_of(m: Map<Seq<char>, nat>) -> nat
    decreases m.dom().len(),
    when m.dom().finite()
{
    if m.dom().len() == 0 {
        0
    } else {
        let k = m.dom().choose();
        m[k] + sum_of(m.remove(k))
    }
}

/// What one author has been credited with: a line total, and a line count per file type.
pub struct AuthorTally {
    pub lines: nat,
    pub file_types: Map<Seq<char>, nat>,
}

impl AuthorTally {
    /// The tally of an author who has not been seen yet.
    pub open spec fn empty() -> AuthorTally {
        AuthorTally { lines: 0, file_types: Map::empty() }
    }

    /// The lines counted for one file type; zero for a type not seen.
    pub open spec fn count_of(self, file_type: Seq<char>) -> nat {
        if self.file_types.dom().contains(file_type) {
            self.file_types[file_type]
        } else {
            0
        }
    }

    /// The tally after one more line of the given file type.
    pub open spec fn incremented(self, file_type: Seq<char>) -> AuthorTally {
        AuthorTally {
            lines: self.lines + 1,
            file_types: self.file_types.insert(file_type, self.count_of(file_type) + 1),
        }
    }

    /// The per-type counts add up to the author's total, and each file type that is
    /// counted has one line at least.
    pub open spec fn consistent(self) -> bool {
        &&& self.file_types.dom().finite()
        &&& sum_of(self.file_types) == self.lines
        &&& forall|file_type: Seq<char>|
            self.file_types.dom().contains(file_type) ==> #[trigger] self.file_types[file_type]
                >= 1
    }
}

/// What a whole repository has been credited with: a tally per author email, and a grand total.
pub struct RepoTally {
    pub authors: Map<Seq<char>, AuthorTally>,
    pub total_lines: nat,
}

impl RepoTally {
    /// The tally before any line has been attributed.
    pub open spec fn empty() -> RepoTally {
        RepoTally { authors: Map::empty(), total_lines: 0 }
    }

    /// The tally of one author; the empty tally for an author not seen.
    pub open spec fn tally_of(self, email: Seq<char>) -> AuthorTally {
        if self.authors.dom().contains(email) {
            self.authors[email]
        } else {
            AuthorTally::empty()
        }
    }

    /// Whether lines of the given file type have been attributed to the author.
    pub open spec fn has_lines_of(self, email: Seq<char>, file_type: Seq<char>) -> bool {
        self.authors.dom().contains(email) && self.authors[email].file_types.dom().contains(
            file_type,
        )
    }

    /// The file types of which some author has lines.
    pub open spec fn file_types(self) -> Set<Seq<char>> {
        Set::new(
            |file_type: Seq<char>|
                exists|email: Seq<char>| #[trigger] self.has_lines_of(email, file_type),
        )
    }

    /// The authors that have lines of the given file type, each with the count of those
    /// lines.
    pub open spec fn authors_of_type(self, file_type: Seq<char>) -> Map<Seq<char>, nat> {
        Map::new(
            |email: Seq<char>| self.has_lines_of(email, file_type),
            |email: Seq<char>| self.authors[email].file_types[file_type],
        )
    }

    /// The line total of each author.
    pub open spec fn author_lines(self) -> Map<Seq<char>, nat> {
        self.authors.map_values(|tally: AuthorTally| tally.lines)
    }

    /// The tally after one more line by `email` in a file of type `file_type`: the grand
    /// total, the author's total and the author's count for that type each grow by one.
    pub open spec fn incremented(self, email: Seq<char>, file_type: Seq<char>) -> RepoTally {
        RepoTally {
            authors: self.authors.insert(email, self.tally_of(email).incremented(file_type)),
            total_lines: self.total_lines + 1,
        }
    }

    /// The author totals add up to the grand total, each author's per-type counts add up
    /// to that author's total, and each author and each file type that is counted has one
    /// line at least.
    pub open spec fn consistent(self) -> bool {
        &&& self.authors.dom().finite()
        &&& sum_of(self.author_lines()) == self.total_lines
        &&& forall|email: Seq<char>|
            self.authors.dom().contains(email) ==> (#[trigger] self.authors[email]).consistent()
                && self.authors[email].lines >= 1
    }
}

/// The tally that results from attributing the observed lines one after the other, each
/// given as an author email and a file type name.
pub open spec fn aggregate(observations: Seq<(Seq<char>, Seq<char>)>) -> RepoTally
    decreases observations.len(),
{
    if observations.len() == 0 {
        RepoTally::empty()
    } else {
        aggregate(observations.drop_last()).incremented(
            observations.last().0,
            observations.last().1,
        )
    }
}

/// A sum can be taken apart at any of its keys.
pub proof fn lemma_sum_of_remove(m: Map<Seq<char>, nat>, k: Seq<char>)
    requires
        m.dom().finite(),
        m.dom().contains(k),
    ensures
        sum_of(m) == m[k] + sum_of(m.remove(k)),
    decreases m.dom().len(),
{
    let c = m.dom().choose();
    if c != k {
        lemma_sum_of_remove(m.remove(c), k);
        lemma_sum_of_remove(m.remove(k), c);
        assert(m.remove(c).remove(k) =~= m.remove(k).remove(c));
    }
}

/// Setting the count of one key changes the sum by the difference to what the key held.
pub proof fn lemma_sum_of_insert(m: Map<Seq<char>, nat>, k: Seq<char>, v: nat)
    requires
        m.dom().finite(),
    ensures
        sum_of(m.insert(k, v)) + (if m.dom().contains(k) { m[k] } else { 0 }) == sum_of(m) + v,
{
    let updated = m.insert(k, v);
    lemma_sum_of_remove(updated, k);
    if m.dom().contains(k) {
        lemma_sum_of_remove(m, k);
        assert(updated.remove(k) =~= m.remove(k));
    } else {
        assert(updated.remove(k) =~= m);
    }
}

/// No single count exceeds the sum.
pub proof fn lemma_sum_of_bounds_each(m: Map<Seq<char>, nat>, k: Seq<char>)
    requires
        m.dom().finite(),
        m.dom().contains(k),
    ensures
        m[k] <= sum_of(m),
{
    lemma_sum_of_remove(m, k);
}

/// Before any line is attributed the totals agree.
pub proof fn lemma_empty_is_consistent()
    ensures
        RepoTally::empty().consistent(),
        AuthorTally::empty().consistent(),
{
    assert(RepoTally::empty().author_lines() =~= Map::<Seq<char>, nat>::empty());
}

/// One more line keeps an author's per-type counts adding up to the author's total.
pub proof fn lemma_author_increment_keeps_consistency(tally: AuthorTally, file_type: Seq<char>)
    requires
        tally.consistent(),
    ensures
        tally.incremented(file_type).consistent(),
{
    lemma_sum_of_insert(tally.file_types, file_type, tally.count_of(file_type) + 1);
}

/// One more line keeps every total of the repository in agreement.
pub proof fn lemma_increment_keeps_consistency(
    tally: RepoTally,
    email: Seq<char>,
    file_type: Seq<char>,
)
    requires
        tally.consistent(),
    ensures
        tally.incremented(email, file_type).consistent(),
{
    let before = tally.tally_of(email);
    let after = before.incremented(file_type);
    let next = tally.incremented(email, file_type);
    lemma_empty_is_consistent();
    lemma_author_increment_keeps_consistency(before, file_type);
    assert(tally.author_lines().dom() =~= tally.authors.dom());
    assert(next.author_lines() =~= tally.author_lines().insert(email, after.lines));
    lemma_sum_of_insert(tally.author_lines(), email, after.lines);
    assert forall|other: Seq<char>| next.authors.dom().contains(other) implies (
    #[trigger] next.authors[other]).consistent() by {
        if other != email {
            assert(tally.authors.dom().contains(other));
        }
    }
}

/// Whatever lines are attributed, in whatever order: the author totals add up to the grand
/// total, and each author's per-type counts add up to that author's total.
pub proof fn lemma_aggregate_is_consistent(observations: Seq<(Seq<char>, Seq<char>)>)
    ensures
        aggregate(observations).consistent(),
        aggregate(observations).total_lines == observations.len(),
    decreases observations.len(),
{
    if observations.len() == 0 {
        lemma_empty_is_consistent();
    } else {
        lemma_aggregate_is_consistent(observations.drop_last());
        lemma_increment_keeps_consistency(
            aggregate(observations.drop_last()),
            observations.last().0,
            observations.last().1,
        );
    }
}

/// Attributing two lines in either order gives the same tally.
pub proof fn lemma_increments_commute(
    tally: RepoTally,
    first: (Seq<char>, Seq<char>),
    second: (Seq<char>, Seq<char>),
)
    ensures
        tally.incremented(first.0, first.1).incremented(second.0, second.1)
            == tally.incremented(second.0, second.1).incremented(first.0, first.1),
{
    let one = tally.incremented(first.0, first.1).incremented(second.0, second.1);
    let other = tally.incremented(second.0, second.1).incremented(first.0, first.1);
    if first.0 == second.0 {
        let start = tally.tally_of(first.0);
        let a = start.incremented(first.1).incremented(second.1);
        let b = start.incremented(second.1).incremented(first.1);
        assert(a.file_types =~= b.file_types);
        assert(one.authors =~= other.authors);
    } else {
        assert(one.authors =~= other.authors);
    }
}

/// Attributing one more line after the others is one more step of the aggregation.
pub proof fn lemma_aggregate_step(
    observations: Seq<(Seq<char>, Seq<char>)>,
    next: (Seq<char>, Seq<char>),
)
    ensures
        aggregate(observations.push(next)) == aggregate(observations).incremented(next.0, next.1),
{
    assert(observations.push(next).drop_last() =~= observations);
}

/// An observation may be taken out of its place and attributed last.
pub proof fn lemma_aggregate_last(observations: Seq<(Seq<char>, Seq<char>)>, i: int)
    requires
        0 <= i < observations.len(),
    ensures
        aggregate(observations) == aggregate(observations.remove(i)).incremented(
            observations[i].0,
            observations[i].1,
        ),
    decreases observations.len(),
{
    let rest = observations.drop_last();
    let last = observations.last();
    if i == observations.len() - 1 {
        assert(observations.remove(i) =~= rest);
    } else {
        lemma_aggregate_last(rest, i);
        lemma_increments_commute(aggregate(rest.remove(i)), observations[i], last);
        lemma_aggregate_step(rest.remove(i), last);
        assert(rest.remove(i).push(last) =~= observations.remove(i));
    }
}

/// The tally does not depend on the order in which the lines are attributed: the same
/// observations, each as often, give the same tally.
pub proof fn lemma_aggregate_order_independent(
    one: Seq<(Seq<char>, Seq<char>)>,
    other: Seq<(Seq<char>, Seq<char>)>,
)
    requires
        one.to_multiset() == other.to_multiset(),
    ensures
        aggregate(one) == aggregate(other),
    decreases one.len(),
{
    one.to_multiset_ensures();
    other.to_multiset_ensures();
    if one.len() == 0 {
        assert(other.len() == 0);
    } else {
        let last = one.last();
        assert(one.contains(last)) by {
            assert(one[one.len() - 1] == last);
        }
        assert(one.to_multiset().count(last) > 0);
        assert(other.to_multiset().count(last) > 0);
        assert(other.contains(last));
        let i = other.index_of(last);
        assert(one.remove(one.len() - 1) =~= one.drop_last());
        lemma_aggregate_order_independent(one.drop_last(), other.remove(i));
        lemma_aggregate_last(other, i);
    }
}

} // verus!
