//! The table of artists and their works.

use crate::order::{is_sorted, same_text};
use crate::sorting::{
    lemma_sorted_titles, lemma_sorted_titles_fixed, sort_titles, sorted_titles, titles,
};
use vstd::prelude::*;

verus! {

/// A table that gives each artist, a unique text, the list of the artist's
/// works. The list is ordered and may hold a title more than once.
pub struct ArtistWorksTable {
    artists: Vec<String>,
    works: Vec<Vec<String>>,
}

/// The table under its short name.
pub type Table = ArtistWorksTable;

/// The lines that show a list of works: for each title a space, the title and
/// a line break.
pub open spec fn render_works(works: Seq<Seq<char>>) -> Seq<char>
    decreases works.len(),
{
    if works.len() == 0 {
        Seq::empty()
    } else {
        render_works(works.drop_last()) + " "@ + works.last() + "\n"@
    }
}

/// The lines that show one artist: a header that names the artist, then the
/// artist's works.
pub open spec fn render_entry(artist: Seq<char>, works: Seq<Seq<char>>) -> Seq<char> {
    "works by "@ + artist + ":\n"@ + render_works(works)
}

/// The text that shows the artists of `order`, one after the other, each with
/// the works that `m` gives for it.
pub open spec fn render_table(
    order: Seq<Seq<char>>,
    m: Map<Seq<char>, Seq<Seq<char>>>,
) -> Seq<char>
    decreases order.len(),
{
    if order.len() == 0 {
        Seq::empty()
    } else {
        render_table(order.drop_last(), m) + render_entry(order.last(), m[order.last()])
    }
}

/// The table `m` with each list of works in ascending order.
pub open spec fn sorted_table(
    m: Map<Seq<char>, Seq<Seq<char>>>,
) -> Map<Seq<char>, Seq<Seq<char>>> {
    Map::new(|a: Seq<char>| m.contains_key(a), |a: Seq<char>| sorted_titles(m[a]))
}

/// Every list of works in `m` is in ascending order.
pub open spec fn all_sorted(m: Map<Seq<char>, Seq<Seq<char>>>) -> bool {
    forall|a: Seq<char>| m.contains_key(a) ==> is_sorted(#[trigger] m[a])
}

impl View for ArtistWorksTable {
    type V = Map<Seq<char>, Seq<Seq<char>>>;

    /// The table as a map from each artist to the artist's works.
    closed spec fn view(&self) -> Map<Seq<char>, Seq<Seq<char>>> {
        Map::new(
            |a: Seq<char>| self.order().contains(a),
            |a: Seq<char>| self.lists()[self.order().index_of(a)],
        )
    }
}

impl ArtistWorksTable {
    /// The artists in the order in which the table walks them.
    pub closed spec fn order(&self) -> Seq<Seq<char>> {
        titles(self.artists@)
    }

    /// The lists of works, each at its artist's place.
    spec fn lists(&self) -> Seq<Seq<Seq<char>>> {
        Seq::new(self.works@.len(), |i: int| titles(self.works@[i]@))
    }

    /// The table is well formed: each artist has one list and stands in the
    /// table once.
    pub closed spec fn wf(&self) -> bool {
        &&& self.artists@.len() == self.works@.len()
        &&& self.order().no_duplicates()
    }

    /// The artist at place `i` is a key of the table, with the list at place `i`.
    proof fn lemma_at(&self, i: int)
        requires
            self.wf(),
            0 <= i < self.order().len(),
        ensures
            self@.contains_key(self.order()[i]),
            self@[self.order()[i]] == self.lists()[i],
            self.order().index_of(self.order()[i]) == i,
    {
        let a = self.order()[i];
        assert(self.order().contains(a));
        let j = self.order().index_of(a);
        assert(0 <= j < self.order().len() && self.order()[j] == a);
    }

    /// The order of a well-formed table names each of its artists once, and
    /// nothing else.
    pub proof fn lemma_order_enumerates(&self)
        requires
            self.wf(),
        ensures
            self.order().no_duplicates(),
            forall|a: Seq<char>| self.order().contains(a) <==> self@.contains_key(a),
            self@.dom().finite(),
            self@.dom().len() == self.order().len(),
    {
        assert(self@.dom() =~= self.order().to_set());
        self.order().unique_seq_to_set();
    }

    /// A table without artists.
    pub fn new() -> (t: Self)
        ensures
            t.wf(),
            t@ == Map::<Seq<char>, Seq<Seq<char>>>::empty(),
            t.order() == Seq::<Seq<char>>::empty(),
    {
        let t = ArtistWorksTable { artists: Vec::new(), works: Vec::new() };
        proof {
            assert(t.order() =~= Seq::<Seq<char>>::empty());
            assert(t@ =~= Map::<Seq<char>, Seq<Seq<char>>>::empty());
        }
        t
    }

    /// The place of `artist` in the table, if it has one.
    fn position(&self, artist: &str) -> (r: Option<usize>)
        requires
            self.wf(),
        ensures
            match r {
                Some(i) => i < self.order().len() && self.order()[i as int] == artist@,
                None => !self.order().contains(artist@),
            },
    {
        let mut i: usize = 0;
        while i < self.artists.len()
            invariant
                i <= self.artists.len(),
                forall|j: int| 0 <= j < i ==> self.order()[j] != artist@,
            decreases self.artists.len() - i,
        {
            if same_text(self.artists[i].as_str(), artist) {
                return Some(i);
            }
            i += 1;
        }
        None
    }

    /// The number of artists.
    pub fn len(&self) -> (n: usize)
        requires
            self.wf(),
        ensures
            n == self@.dom().len(),
            n == self.order().len(),
    {
        proof {
            self.lemma_order_enumerates();
        }
        self.artists.len()
    }

    /// Gives `artist` the list `works`. A list that the artist had before is
    /// replaced, and the artist keeps its place; a new artist comes last.
    pub fn insert(&mut self, artist: String, works: Vec<String>)
        requires
            old(self).wf(),
        ensures
            final(self).wf(),
            final(self)@ == old(self)@.insert(artist@, titles(works@)),
            final(self).order() == if old(self)@.contains_key(artist@) {
                old(self).order()
            } else {
                old(self).order().push(artist@)
            },
    {
        let ghost before = *self;
        let ghost key = artist@;
        let ghost list = titles(works@);
        match self.position(artist.as_str()) {
            Some(i) => {
                self.works[i] = works;
                proof {
                    assert(self.order() == before.order());
                    assert(self.lists() =~= before.lists().update(i as int, list));
                    before.lemma_at(i as int);
                    assert forall|a: Seq<char>| self@.contains_key(a) implies self@[a]
                        == before@.insert(key, list)[a] by {
                        let j = self.order().index_of(a);
                        assert(0 <= j < self.order().len() && self.order()[j] == a);
                    }
                    assert(self@ =~= before@.insert(key, list));
                }
            },
            None => {
                self.artists.push(artist);
                self.works.push(works);
                proof {
                    assert(self.order() =~= before.order().push(key));
                    assert(self.lists() =~= before.lists().push(list));
                    let n = before.order().len() as int;
                    self.lemma_at(n);
                    assert forall|a: Seq<char>| #[trigger]
                        before@.contains_key(a) implies self@.contains_key(a) && self@[a]
                        == before@[a] by {
                        let j = before.order().index_of(a);
                        assert(0 <= j < n && before.order()[j] == a);
                        assert(self.order()[j] == a);
                        self.lemma_at(j);
                    }
                    assert forall|a: Seq<char>| self@.contains_key(a) implies a == key
                        || before@.contains_key(a) by {
                        let j = self.order().index_of(a);
                        assert(0 <= j <= n && self.order()[j] == a);
                        if j < n {
                            assert(before.order()[j] == a);
                        }
                    }
                    let goal = before@.insert(key, list);
                    assert(self.order()[n] == key);
                    assert(self@.contains_key(key));
                    assert(self@[key] == list);
                    assert forall|a: Seq<char>| goal.contains_key(a) implies self@.contains_key(
                        a,
                    ) && self@[a] == goal[a] by {
                        if a != key {
                            assert(before@.contains_key(a));
                        }
                    }
                    assert(self@ =~= before@.insert(key, list));
                }
            },
        }
    }

    /// The works of `artist`, if the table holds the artist.
    pub fn get(&self, artist: &str) -> (r: Option<&Vec<String>>)
        requires
            self.wf(),
        ensures
            match r {
                Some(w) => self@.contains_key(artist@) && titles(w@) == self@[artist@],
                None => !self@.contains_key(artist@),
            },
    {
        match self.position(artist) {
            Some(i) => {
                proof {
                    self.lemma_at(i as int);
                }
                Some(&self.works[i])
            },
            None => None,
        }
    }

    /// The text that shows the table: for each artist, in the table's order,
    /// a header line and then one line for each work, in the list's order.
    pub fn display(&self) -> (text: String)
        requires
            self.wf(),
        ensures
            text@ == render_table(self.order(), self@),
    {
        let mut text = String::new();
        let mut i: usize = 0;
        proof {
            assert(self.order().take(0) =~= Seq::<Seq<char>>::empty());
        }
        while i < self.artists.len()
            invariant
                self.wf(),
                i <= self.artists.len(),
                text@ == render_table(self.order().take(i as int), self@),
            decreases self.artists.len() - i,
        {
            let ghost shown = text@;
            let ghost artist = self.order()[i as int];
            let ghost header = "works by "@ + artist + ":\n"@;
            text.append("works by ");
            text.append(self.artists[i].as_str());
            text.append(":\n");
            let list = &self.works[i];
            let ghost all = titles(list@);
            let mut j: usize = 0;
            proof {
                assert(all.take(0) =~= Seq::<Seq<char>>::empty());
                assert(text@ =~= shown + header + render_works(all.take(0)));
            }
            while j < list.len()
                invariant
                    j <= list.len(),
                    all == titles(list@),
                    text@ == shown + header + render_works(all.take(j as int)),
                decreases list.len() - j,
            {
                let ghost lines = render_works(all.take(j as int));
                text.append(" ");
                text.append(list[j].as_str());
                text.append("\n");
                proof {
                    let next = all.take(j + 1);
                    assert(next.drop_last() =~= all.take(j as int));
                    assert(next.last() == all[j as int]);
                    assert(text@ =~= shown + header + (lines + " "@ + all[j as int] + "\n"@));
                }
                j += 1;
            }
            proof {
                let upto = self.order().take(i + 1);
                assert(all.take(j as int) =~= all);
                assert(upto.drop_last() =~= self.order().take(i as int));
                assert(upto.last() == artist);
                self.lemma_at(i as int);
                assert(self.lists()[i as int] == all);
                assert(text@ =~= shown + (header + render_works(all)));
            }
            i += 1;
        }
        proof {
            assert(self.order().take(i as int) =~= self.order());
        }
        text
    }

    /// Puts every artist's works in ascending order. No artist comes or
    /// goes, none changes its place, and each list holds afterwards the
    /// titles that it held before, each as often.
    pub fn sort_all_works(&mut self)
        requires
            old(self).wf(),
        ensures
            final(self).wf(),
            final(self).order() == old(self).order(),
            final(self)@ == sorted_table(old(self)@),
            final(self)@.dom() == old(self)@.dom(),
            forall|a: Seq<char>|
                old(self)@.contains_key(a) ==> is_sorted(#[trigger] final(self)@[a]),
            forall|a: Seq<char>|
                old(self)@.contains_key(a) ==> (#[trigger] final(self)@[a]).to_multiset()
                    == old(self)@[a].to_multiset(),
            all_sorted(old(self)@) ==> final(self)@ == old(self)@,
            all_sorted(final(self)@),
    {
        let ghost before = *self;
        let mut i: usize = 0;
        while i < self.works.len()
            invariant
                before.wf(),
                self.artists == before.artists,
                self.works@.len() == before.works@.len(),
                i <= self.works.len(),
                forall|j: int|
                    0 <= j < i ==> #[trigger] self.lists()[j] == sorted_titles(before.lists()[j]),
                forall|j: int|
                    i <= j < self.works.len() ==> #[trigger] self.lists()[j] == before.lists()[j],
            decreases self.works.len() - i,
        {
            let ghost mid = *self;
            sort_titles(&mut self.works[i]);
            proof {
                assert forall|j: int| 0 <= j < i + 1 implies #[trigger] self.lists()[j]
                    == sorted_titles(before.lists()[j]) by {
                    if j < i {
                        assert(self.lists()[j] == mid.lists()[j]);
                    } else {
                        assert(mid.lists()[j] == before.lists()[j]);
                    }
                }
                assert forall|j: int| i + 1 <= j < self.works.len() implies #[trigger] self.lists()[j]
                    == before.lists()[j] by {
                    assert(self.lists()[j] == mid.lists()[j]);
                }
            }
            i += 1;
        }
        proof {
            assert(self.order() == before.order());
            assert forall|a: Seq<char>| #[trigger] self@.contains_key(a) implies self@[a]
                == sorted_titles(before@[a]) by {
                let j = self.order().index_of(a);
                assert(0 <= j < self.order().len() && self.order()[j] == a);
                assert(self.lists()[j] == sorted_titles(before.lists()[j]));
            }
            assert(self@ =~= sorted_table(before@));
            assert(self@.dom() =~= before@.dom());
            lemma_sorted_table(before@);
            if all_sorted(before@) {
                lemma_sorted_table_fixed(before@);
            }
        }
    }
}

/// Puts every artist's works in `table` in ascending order.
pub fn sort_works(table: &mut Table)
    requires
        old(table).wf(),
    ensures
        final(table).wf(),
        final(table).order() == old(table).order(),
        final(table)@ == sorted_table(old(table)@),
        final(table)@.dom() == old(table)@.dom(),
        forall|a: Seq<char>|
            old(table)@.contains_key(a) ==> is_sorted(#[trigger] final(table)@[a]),
        forall|a: Seq<char>|
            old(table)@.contains_key(a) ==> (#[trigger] final(table)@[a]).to_multiset()
                == old(table)@[a].to_multiset(),
        all_sorted(old(table)@) ==> final(table)@ == old(table)@,
        all_sorted(final(table)@),
{
    table.sort_all_works();
}

/// Sorting a table keeps its artists, leaves each list in ascending order,
/// and changes in no list which titles it holds, nor how often.
pub proof fn lemma_sorted_table(m: Map<Seq<char>, Seq<Seq<char>>>)
    ensures
        sorted_table(m).dom() == m.dom(),
        all_sorted(sorted_table(m)),
        forall|a: Seq<char>| m.contains_key(a) ==> is_sorted(#[trigger] sorted_table(m)[a]),
        forall|a: Seq<char>|
            m.contains_key(a) ==> (#[trigger] sorted_table(m)[a]).to_multiset()
                == m[a].to_multiset(),
{
    assert(sorted_table(m).dom() =~= m.dom());
    assert forall|a: Seq<char>| m.contains_key(a) implies is_sorted(
        #[trigger] sorted_table(m)[a],
    ) && sorted_table(m)[a].to_multiset() == m[a].to_multiset() by {
        lemma_sorted_titles(m[a]);
    }
}

/// Sorting changes nothing in a table whose lists are all in ascending order.
pub proof fn lemma_sorted_table_fixed(m: Map<Seq<char>, Seq<Seq<char>>>)
    requires
        all_sorted(m),
    ensures
        sorted_table(m) == m,
{
    assert forall|a: Seq<char>| m.contains_key(a) implies #[trigger] sorted_table(m)[a] == m[a] by {
        assert(is_sorted(m[a]));
        lemma_sorted_titles_fixed(m[a]);
    }
    assert(sorted_table(m) =~= m);
}

/// Sorting a table a second time changes nothing.
pub proof fn lemma_sorted_table_idempotent(m: Map<Seq<char>, Seq<Seq<char>>>)
    ensures
        sorted_table(sorted_table(m)) == sorted_table(m),
        all_sorted(sorted_table(m)),
{
    lemma_sorted_table(m);
    lemma_sorted_table_fixed(sorted_table(m));
}

/// The table that gives each artist of `artists` the works at the same place
/// in `lists`: what inserting them in turn into an empty table leaves.
pub open spec fn inserted(
    artists: Seq<Seq<char>>,
    lists: Seq<Seq<Seq<char>>>,
) -> Map<Seq<char>, Seq<Seq<char>>>
    decreases artists.len(),
{
    if artists.len() == 0 || lists.len() != artists.len() {
        Map::empty()
    } else {
        inserted(artists.drop_last(), lists.drop_last()).insert(artists.last(), lists.last())
    }
}

/// The text that shows each artist of `artists` in turn, with the works at
/// the same place in `lists`.
pub open spec fn render_entries(artists: Seq<Seq<char>>, lists: Seq<Seq<Seq<char>>>) -> Seq<char>
    decreases artists.len(),
{
    if artists.len() == 0 || lists.len() != artists.len() {
        Seq::empty()
    } else {
        render_entries(artists.drop_last(), lists.drop_last())
            + render_entry(artists.last(), lists.last())
    }
}

/// One more insertion adds one more pair to what the earlier ones left.
pub proof fn lemma_inserted_push(
    artists: Seq<Seq<char>>,
    lists: Seq<Seq<Seq<char>>>,
    artist: Seq<char>,
    works: Seq<Seq<char>>,
)
    requires
        artists.len() == lists.len(),
    ensures
        inserted(artists.push(artist), lists.push(works))
            == inserted(artists, lists).insert(artist, works),
{
    assert(artists.push(artist).drop_last() =~= artists);
    assert(lists.push(works).drop_last() =~= lists);
}

/// After insertions under distinct artists the table holds exactly those
/// artists, each with the works that were given for it.
pub proof fn lemma_inserted_holds(artists: Seq<Seq<char>>, lists: Seq<Seq<Seq<char>>>)
    requires
        artists.len() == lists.len(),
        artists.no_duplicates(),
    ensures
        forall|a: Seq<char>| inserted(artists, lists).contains_key(a) <==> artists.contains(a),
        forall|i: int|
            0 <= i < artists.len() ==> inserted(artists, lists).contains_key(
                #[trigger] artists[i],
            ) && inserted(artists, lists)[artists[i]] == lists[i],
    decreases artists.len(),
{
    if artists.len() > 0 {
        let front = artists.drop_last();
        let rest = lists.drop_last();
        let m = inserted(front, rest);
        let all = inserted(artists, lists);
        let n = front.len() as int;
        assert(all == m.insert(artists[n], lists[n]));
        lemma_inserted_holds(front, rest);
        assert forall|i: int| 0 <= i < artists.len() implies all.contains_key(
            #[trigger] artists[i],
        ) && all[artists[i]] == lists[i] by {
            if i < n {
                assert(front[i] == artists[i]);
                assert(rest[i] == lists[i]);
                assert(m.contains_key(front[i]) && m[front[i]] == rest[i]);
                assert(artists[i] != artists[n]);
            }
        }
        assert forall|a: Seq<char>| all.contains_key(a) implies artists.contains(a) by {
            if a != artists[n] {
                assert(m.contains_key(a));
                assert(front.contains(a));
                let j = choose|j: int| 0 <= j < front.len() && front[j] == a;
                assert(artists[j] == a);
            }
        }
        assert forall|a: Seq<char>| artists.contains(a) implies all.contains_key(a) by {
            let j = choose|j: int| 0 <= j < artists.len() && artists[j] == a;
            assert(all.contains_key(artists[j]));
        }
    }
}

/// After insertions under distinct artists the table shows those artists in
/// the order of their insertion, each with the works that were given for it,
/// and nothing else.
pub proof fn lemma_display_after_inserts(
    t: ArtistWorksTable,
    artists: Seq<Seq<char>>,
    lists: Seq<Seq<Seq<char>>>,
)
    requires
        artists.len() == lists.len(),
        artists.no_duplicates(),
        t@ == inserted(artists, lists),
        t.order() == artists,
    ensures
        render_table(t.order(), t@) == render_entries(artists, lists),
        forall|a: Seq<char>| t@.contains_key(a) <==> artists.contains(a),
        forall|i: int|
            0 <= i < artists.len() ==> t@.contains_key(#[trigger] artists[i]) && t@[artists[i]]
                == lists[i],
{
    lemma_render_inserted(artists, lists);
    lemma_inserted_holds(artists, lists);
}

/// What a table made by insertions under distinct artists shows, stated of
/// the map and the order alone.
pub proof fn lemma_render_inserted(artists: Seq<Seq<char>>, lists: Seq<Seq<Seq<char>>>)
    requires
        artists.len() == lists.len(),
        artists.no_duplicates(),
    ensures
        render_table(artists, inserted(artists, lists)) == render_entries(artists, lists),
    decreases artists.len(),
{
    if artists.len() > 0 {
        let front = artists.drop_last();
        let rest = lists.drop_last();
        assert forall|i: int| 0 <= i < front.len() implies front[i] != artists.last() by {
            assert(front[i] == artists[i]);
        }
        lemma_render_inserted(front, rest);
        lemma_render_ignores_other_keys(front, inserted(front, rest), artists.last(), lists.last());
    }
}

/// What a table shows of the artists in `order` does not depend on the
/// works of an artist that is not among them.
pub proof fn lemma_render_ignores_other_keys(
    order: Seq<Seq<char>>,
    m: Map<Seq<char>, Seq<Seq<char>>>,
    artist: Seq<char>,
    works: Seq<Seq<char>>,
)
    requires
        !order.contains(artist),
    ensures
        render_table(order, m.insert(artist, works)) == render_table(order, m),
    decreases order.len(),
{
    if order.len() > 0 {
        let front = order.drop_last();
        assert(order.last() == order[order.len() - 1]);
        assert forall|i: int| 0 <= i < front.len() implies front[i] != artist by {
            assert(front[i] == order[i]);
        }
        lemma_render_ignores_other_keys(front, m, artist, works);
    }
}

/// A table to which a new artist was added shows what it showed before,
/// and after it the new artist with the works that were given.
pub proof fn lemma_display_after_insert(
    before: ArtistWorksTable,
    after: ArtistWorksTable,
    artist: Seq<char>,
    works: Seq<Seq<char>>,
)
    requires
        before.wf(),
        !before@.contains_key(artist),
        after@ == before@.insert(artist, works),
        after.order() == before.order().push(artist),
    ensures
        render_table(after.order(), after@) == render_table(before.order(), before@)
            + render_entry(artist, works),
{
    before.lemma_order_enumerates();
    assert(after.order().drop_last() =~= before.order());
    lemma_render_ignores_other_keys(before.order(), before@, artist, works);
}

} // verus!
