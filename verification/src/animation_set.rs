//! Animations by state name, kept in ascending order of name.

use vstd::prelude::*;
use vstd::utf8::encode_utf8;
use crate::animation::{Animation, AnimationFrame};

verus! {

/// `a` comes before `b` in lexicographic byte order.
pub open spec fn bytes_before(a: Seq<u8>, b: Seq<u8>) -> bool
    decreases a.len(),
{
    if b.len() == 0 {
        false
    } else if a.len() == 0 {
        true
    } else if a[0] != b[0] {
        a[0] < b[0]
    } else {
        bytes_before(a.drop_first(), b.drop_first())
    }
}

/// Name `a` comes before name `b` in the order of their UTF-8 bytes, the order in which
/// Rust orders strings.
pub open spec fn name_before(a: Seq<char>, b: Seq<char>) -> bool {
    bytes_before(encode_utf8(a), encode_utf8(b))
}

/// Byte order skips a common prefix.
pub proof fn lemma_bytes_before_skip(a: Seq<u8>, b: Seq<u8>, i: int)
    requires
        0 <= i <= a.len(),
        i <= b.len(),
        a.take(i) == b.take(i),
    ensures
        bytes_before(a, b) == bytes_before(a.skip(i), b.skip(i)),
    decreases i,
{
    if i == 0 {
        assert(a.skip(0) =~= a);
        assert(b.skip(0) =~= b);
    } else {
        assert(a[0] == a.take(i)[0]);
        assert(b[0] == b.take(i)[0]);
        assert(a.drop_first().take(i - 1) =~= b.drop_first().take(i - 1)) by {
            assert forall|k: int| 0 <= k < i - 1 implies a.drop_first()[k] == b.drop_first()[k] by {
                assert(a[k + 1] == a.take(i)[k + 1]);
                assert(b[k + 1] == b.take(i)[k + 1]);
            }
        }
        lemma_bytes_before_skip(a.drop_first(), b.drop_first(), i - 1);
        assert(a.drop_first().skip(i - 1) =~= a.skip(i));
        assert(b.drop_first().skip(i - 1) =~= b.skip(i));
    }
}

/// Byte order is a strict total order.
pub proof fn lemma_bytes_before_total(a: Seq<u8>, b: Seq<u8>)
    ensures
        bytes_before(a, b) ==> !bytes_before(b, a) && a != b,
        a != b ==> bytes_before(a, b) || bytes_before(b, a),
    decreases a.len(),
{
    if a.len() > 0 && b.len() > 0 && a[0] == b[0] {
        lemma_bytes_before_total(a.drop_first(), b.drop_first());
        if a.drop_first() == b.drop_first() {
            assert forall|k: int| 0 <= k < a.len() implies a[k] == b[k] by {
                if k > 0 {
                    assert(a[k] == a.drop_first()[k - 1]);
                    assert(b[k] == b.drop_first()[k - 1]);
                }
            }
            assert(a =~= b);
        }
    }
    if a.len() == 0 && b.len() == 0 {
        assert(a =~= b);
    }
}

/// Byte order is transitive.
pub proof fn lemma_bytes_before_transitive(a: Seq<u8>, b: Seq<u8>, c: Seq<u8>)
    requires
        bytes_before(a, b),
        bytes_before(b, c),
    ensures
        bytes_before(a, c),
    decreases a.len(),
{
    if a.len() > 0 && a[0] == b[0] && b[0] == c[0] {
        lemma_bytes_before_transitive(a.drop_first(), b.drop_first(), c.drop_first());
    }
}

/// Distinct names have distinct UTF-8 bytes.
pub proof fn lemma_encode_injective(a: Seq<char>, b: Seq<char>)
    requires
        encode_utf8(a) == encode_utf8(b),
    ensures
        a == b,
{
    vstd::utf8::encode_utf8_decode_utf8(a);
    vstd::utf8::encode_utf8_decode_utf8(b);
}

/// Name order is a strict total order.
pub proof fn lemma_name_before_total(a: Seq<char>, b: Seq<char>)
    ensures
        name_before(a, b) ==> !name_before(b, a) && a != b,
        a != b ==> name_before(a, b) || name_before(b, a),
{
    lemma_bytes_before_total(encode_utf8(a), encode_utf8(b));
    if encode_utf8(a) == encode_utf8(b) {
        lemma_encode_injective(a, b);
    }
}

/// Where one name stands relative to another.
#[derive(Clone, Copy, Debug, PartialEq, Eq)]
pub enum NameOrder {
    Before,
    Same,
    After,
}

/// Where name `a` stands relative to name `b` in the order of their UTF-8 bytes.
pub fn name_order(a: &str, b: &str) -> (order: NameOrder)
    ensures
        order == NameOrder::Before <==> name_before(a@, b@),
        order == NameOrder::Same <==> a@ == b@,
        order == NameOrder::After <==> name_before(b@, a@),
{
    let x = a.as_bytes();
    let y = b.as_bytes();
    let ghost xs = encode_utf8(a@);
    let ghost ys = encode_utf8(b@);
    let mut i: usize = 0;
    while i < x.len() && i < y.len() && x[i] == y[i]
        invariant
            x@ == xs,
            y@ == ys,
            i <= xs.len(),
            i <= ys.len(),
            xs.take(i as int) == ys.take(i as int),
        decreases xs.len() - i,
    {
        assert(xs.take(i + 1) =~= xs.take(i as int).push(xs[i as int]));
        assert(ys.take(i + 1) =~= ys.take(i as int).push(ys[i as int]));
        i = i + 1;
    }
    proof {
        lemma_bytes_before_skip(xs, ys, i as int);
        lemma_bytes_before_skip(ys, xs, i as int);
        lemma_name_before_total(a@, b@);
        if i == xs.len() && i == ys.len() {
            assert(xs =~= xs.take(i as int));
            assert(ys =~= ys.take(i as int));
            lemma_encode_injective(a@, b@);
        }
    }
    if i == x.len() && i == y.len() {
        NameOrder::Same
    } else if i == x.len() {
        NameOrder::Before
    } else if i == y.len() {
        NameOrder::After
    } else if x[i] < y[i] {
        NameOrder::Before
    } else {
        NameOrder::After
    }
}

/// What an animation is, as a value: its frames and where its loop starts.
pub type AnimationView = (Seq<AnimationFrame>, Option<usize>);

/// The map from name to animation that a list of named entries stands for; a later
/// entry for a name replaces an earlier one.
pub open spec fn entries_map(entries: Seq<(Seq<char>, AnimationView)>) -> Map<Seq<char>, AnimationView>
    decreases entries.len(),
{
    if entries.len() == 0 {
        Map::empty()
    } else {
        entries_map(entries.drop_last()).insert(entries.last().0, entries.last().1)
    }
}

/// The names of the entries are in strictly ascending order.
pub open spec fn names_ascending(entries: Seq<(Seq<char>, AnimationView)>) -> bool {
    forall|i: int, j: int|
        0 <= i < j < entries.len() ==> name_before(#[trigger] entries[i].0, #[trigger] entries[j].0)
}

/// The names of the entries are pairwise distinct.
pub open spec fn names_distinct(entries: Seq<(Seq<char>, AnimationView)>) -> bool {
    forall|i: int, j: int|
        0 <= i < entries.len() && 0 <= j < entries.len() && i != j ==> #[trigger] entries[i].0
            != #[trigger] entries[j].0
}

/// Ascending names are distinct.
pub proof fn lemma_ascending_distinct(entries: Seq<(Seq<char>, AnimationView)>)
    requires
        names_ascending(entries),
    ensures
        names_distinct(entries),
{
    assert forall|i: int, j: int|
        0 <= i < entries.len() && 0 <= j < entries.len() && i != j implies #[trigger] entries[i].0
        != #[trigger] entries[j].0 by {
        if i < j {
            lemma_name_before_total(entries[i].0, entries[j].0);
        } else {
            lemma_name_before_total(entries[j].0, entries[i].0);
        }
    }
}

/// The map of distinct entries holds exactly their names, each with its entry's
/// animation.
pub proof fn lemma_entries_map(entries: Seq<(Seq<char>, AnimationView)>)
    requires
        names_distinct(entries),
    ensures
        forall|i: int|
            0 <= i < entries.len() ==> #[trigger] entries_map(entries).dom().contains(entries[i].0)
                && entries_map(entries)[entries[i].0] == entries[i].1,
        forall|name: Seq<char>|
            #[trigger] entries_map(entries).dom().contains(name) ==> exists|i: int|
                0 <= i < entries.len() && #[trigger] entries[i].0 == name,
    decreases entries.len(),
{
    if entries.len() > 0 {
        let prev = entries.drop_last();
        assert(names_distinct(prev));
        lemma_entries_map(prev);
        let last = (entries.len() - 1) as int;
        assert forall|i: int|
            0 <= i < entries.len() implies #[trigger] entries_map(entries).dom().contains(
            entries[i].0) && entries_map(entries)[entries[i].0] == entries[i].1 by {
            if i < last {
                assert(prev[i] == entries[i]);
                assert(entries_map(prev).dom().contains(prev[i].0));
                assert(entries[i].0 != entries[last].0);
            }
        }
        assert forall|name: Seq<char>| #[trigger]
            entries_map(entries).dom().contains(name) implies exists|i: int|
            0 <= i < entries.len() && #[trigger] entries[i].0 == name by {
            if name != entries[last].0 {
                assert(entries_map(prev).dom().contains(name));
                let i = choose|i: int| 0 <= i < prev.len() && #[trigger] prev[i].0 == name;
                assert(entries[i].0 == name);
            } else {
                assert(entries[last].0 == name);
            }
        }
    }
}

/// Distinct entries stand for a finite map with one name per entry.
pub proof fn lemma_entries_map_len(entries: Seq<(Seq<char>, AnimationView)>)
    requires
        names_distinct(entries),
    ensures
        entries_map(entries).dom().finite(),
        entries_map(entries).len() == entries.len(),
    decreases entries.len(),
{
    if entries.len() > 0 {
        let prev = entries.drop_last();
        let last = (entries.len() - 1) as int;
        assert(names_distinct(prev));
        lemma_entries_map_len(prev);
        lemma_entries_map(prev);
        if entries_map(prev).dom().contains(entries[last].0) {
            let i = choose|i: int| 0 <= i < prev.len() && #[trigger] prev[i].0 == entries[last].0;
            assert(entries[i].0 == entries[last].0);
        }
    }
}

/// A state read back after it was set holds what was set, and every other state reads
/// as it did before.
pub proof fn lemma_get_after_insert(
    before: Map<Seq<char>, AnimationView>,
    name: Seq<char>,
    animation: AnimationView,
    other: Seq<char>,
)
    ensures
        before.insert(name, animation).dom().contains(name),
        before.insert(name, animation)[name] == animation,
        other != name ==> before.insert(name, animation).dom().contains(other) == before.dom().contains(
            other,
        ),
        other != name && before.dom().contains(other) ==> before.insert(name, animation)[other]
            == before[other],
{
}

/// Animations by state name, in ascending order of name; a name occurs at most once.
#[derive(Debug)]
pub struct AnimationSet {
    entries: Vec<(String, Animation)>,
}

/// The name and animation of an entry, as values.
pub open spec fn entry_view(entry: (String, Animation)) -> (Seq<char>, AnimationView) {
    (entry.0@, entry.1@)
}

impl View for AnimationSet {
    type V = Map<Seq<char>, AnimationView>;

    closed spec fn view(&self) -> Map<Seq<char>, AnimationView> {
        entries_map(self.entries@.map_values(|e: (String, Animation)| entry_view(e)))
    }
}

impl AnimationSet {
    /// The entries, in order, as values.
    pub closed spec fn entries(&self) -> Seq<(Seq<char>, AnimationView)> {
        self.entries@.map_values(|e: (String, Animation)| entry_view(e))
    }

    /// The state names, in ascending order.
    pub closed spec fn names(&self) -> Seq<Seq<char>> {
        self.entries().map_values(|e: (Seq<char>, AnimationView)| e.0)
    }

    #[verifier::type_invariant]
    spec fn ascending(self) -> bool {
        names_ascending(self.entries@.map_values(|e: (String, Animation)| entry_view(e)))
    }

    /// The names are in strictly ascending order and are exactly the names the set
    /// holds.
    pub fn lemma_names(&self)
        ensures
            forall|i: int, j: int|
                0 <= i < j < self.names().len() ==> name_before(
                    #[trigger] self.names()[i],
                    #[trigger] self.names()[j],
                ),
            forall|name: Seq<char>|
                self@.dom().contains(name) <==> exists|i: int|
                    0 <= i < self.names().len() && #[trigger] self.names()[i] == name,
    {
        proof {
            use_type_invariant(self);
            let e = self.entries();
            lemma_ascending_distinct(e);
            lemma_entries_map(e);
            assert forall|name: Seq<char>|
                (exists|i: int| 0 <= i < self.names().len() && #[trigger] self.names()[i] == name)
                implies self@.dom().contains(name) by {
                let i = choose|i: int| 0 <= i < self.names().len() && #[trigger] self.names()[i] == name;
                assert(e[i].0 == name);
            }
            assert forall|name: Seq<char>|
                self@.dom().contains(name) implies exists|i: int|
                    0 <= i < self.names().len() && #[trigger] self.names()[i] == name by {
                let i = choose|i: int| 0 <= i < e.len() && #[trigger] e[i].0 == name;
                assert(self.names()[i] == name);
            }
        }
    }

    /// An empty set.
    pub fn new() -> (set: AnimationSet)
        ensures
            set@ == Map::<Seq<char>, AnimationView>::empty(),
            set.names().len() == 0,
    {
        let set = AnimationSet { entries: Vec::new() };
        assert(set.entries() =~= Seq::<(Seq<char>, AnimationView)>::empty());
        set
    }

    /// The number of animations.
    pub fn len(&self) -> (n: usize)
        ensures
            n == self.names().len(),
            n == self@.len(),
            self@.dom().finite(),
    {
        proof {
            use_type_invariant(self);
            lemma_ascending_distinct(self.entries());
            lemma_entries_map_len(self.entries());
        }
        self.entries.len()
    }

    /// Where `name` stands: the position of the first entry whose name does not come
    /// before it, and whether that entry has that very name.
    fn position(&self, name: &str) -> (found: (usize, bool))
        ensures
            found.0 <= self.entries().len(),
            forall|i: int| 0 <= i < found.0 ==> name_before(#[trigger] self.entries()[i].0, name@),
            found.1 ==> found.0 < self.entries().len() && self.entries()[found.0 as int].0 == name@,
            !found.1 && found.0 < self.entries().len() ==> name_before(name@, self.entries()[found.0 as int].0),
    {
        let ghost e = self.entries();
        let mut i: usize = 0;
        while i < self.entries.len()
            invariant
                e == self.entries(),
                i <= e.len(),
                forall|k: int| 0 <= k < i ==> name_before(#[trigger] e[k].0, name@),
            decreases e.len() - i,
        {
            assert(e[i as int].0 == self.entries@[i as int].0@);
            match name_order(self.entries[i].0.as_str(), name) {
                NameOrder::Before => {},
                NameOrder::Same => {
                    return (i, true);
                },
                NameOrder::After => {
                    return (i, false);
                },
            }
            i = i + 1;
        }
        (i, false)
    }

    /// The animation of a state, if there is one.
    pub fn get(&self, name: &str) -> (animation: Option<&Animation>)
        ensures
            animation is Some <==> self@.dom().contains(name@),
            animation matches Some(a) ==> a@ == self@[name@],
    {
        proof {
            use_type_invariant(self);
            lemma_ascending_distinct(self.entries());
            lemma_entries_map(self.entries());
        }
        let (i, same) = self.position(name);
        if same {
            assert(self.entries()[i as int] == entry_view(self.entries@[i as int]));
            Some(&self.entries[i].1)
        } else {
            proof {
                if self@.dom().contains(name@) {
                    let k = choose|k: int| 0 <= k < self.entries().len() && #[trigger] self.entries()[k].0 == name@;
                    lemma_name_before_total(name@, name@);
                    if k >= i {
                        if k > i {
                            lemma_bytes_before_transitive(
                                encode_utf8(name@),
                                encode_utf8(self.entries()[i as int].0),
                                encode_utf8(self.entries()[k].0),
                            );
                        }
                    }
                }
            }
            None
        }
    }

    /// Whether there is an animation for a state.
    pub fn contains_key(&self, name: &str) -> (found: bool)
        ensures
            found == self@.dom().contains(name@),
    {
        self.get(name).is_some()
    }

    /// Sets the animation of a state, replacing any it had.
    pub fn insert(&mut self, name: String, animation: Animation)
        ensures
            final(self)@ == old(self)@.insert(name@, animation@),
            final(self)@.len() == old(self)@.len() + if old(self)@.dom().contains(name@) {
                0int
            } else {
                1int
            },
    {
        proof {
            use_type_invariant(&*self);
            lemma_ascending_distinct(self.entries());
            lemma_entries_map_len(self.entries());
        }
        let ghost old_entries = self.entries();
        let (pos, same) = self.position(name.as_str());
        let mut entries: Vec<(String, Animation)> = Vec::new();
        std::mem::swap(&mut entries, &mut self.entries);
        let ghost new_entry = (name@, animation@);
        if same {
            entries.set(pos, (name, animation));
        } else {
            entries.insert(pos, (name, animation));
        }
        let ghost e = entries@.map_values(|e: (String, Animation)| entry_view(e));
        proof {
            lemma_ascending_distinct(old_entries);
            if same {
                assert(e =~= old_entries.update(pos as int, new_entry));
            } else {
                assert(e =~= old_entries.insert(pos as int, new_entry));
            }
            assert(names_ascending(e)) by {
                assert forall|i: int, j: int| 0 <= i < j < e.len() implies name_before(#[trigger] e[i].0, #[trigger] e[j].0) by {
                    if same {
                        if i == pos && j > pos {
                            lemma_bytes_before_total(encode_utf8(e[i].0), encode_utf8(e[j].0));
                        }
                    } else {
                        if j == pos && i < pos {
                        } else if i == pos {
                            if j > pos + 1 {
                                lemma_bytes_before_transitive(
                                    encode_utf8(name@),
                                    encode_utf8(old_entries[pos as int].0),
                                    encode_utf8(old_entries[j - 1].0),
                                );
                            }
                        }
                    }
                }
            }
            lemma_ascending_distinct(e);
            lemma_entries_map(old_entries);
            lemma_entries_map(e);
            assert forall|q: Seq<char>| #![auto] (entries_map(e).dom().contains(q) <==> entries_map(old_entries).insert(name@, animation@).dom().contains(q)) by {
                if entries_map(e).dom().contains(q) {
                    let i = choose|i: int| 0 <= i < e.len() && #[trigger] e[i].0 == q;
                    if q != name@ {
                        if same || i < pos {
                            assert(old_entries[i] == e[i]);
                            assert(entries_map(old_entries).dom().contains(old_entries[i].0));
                        } else {
                            assert(old_entries[i - 1] == e[i]);
                            assert(entries_map(old_entries).dom().contains(old_entries[i - 1].0));
                        }
                    }
                }
                if entries_map(old_entries).dom().contains(q) && q != name@ {
                    let i = choose|i: int| 0 <= i < old_entries.len() && #[trigger] old_entries[i].0 == q;
                    if same || i < pos {
                        assert(e[i] == old_entries[i]);
                        assert(entries_map(e).dom().contains(e[i].0));
                    } else {
                        assert(e[i + 1] == old_entries[i]);
                        assert(entries_map(e).dom().contains(e[i + 1].0));
                    }
                }
                if q == name@ {
                    assert(e[pos as int].0 == name@);
                    assert(entries_map(e).dom().contains(e[pos as int].0));
                }
            }
            assert forall|q: Seq<char>| #[trigger] entries_map(e).dom().contains(q) implies entries_map(e)[q] == entries_map(old_entries).insert(name@, animation@)[q] by {
                let i = choose|i: int| 0 <= i < e.len() && #[trigger] e[i].0 == q;
                assert(entries_map(e)[e[i].0] == e[i].1);
                if q == name@ {
                    assert(e[pos as int].0 == name@);
                    assert(i == pos);
                } else {
                    if same || i < pos {
                        assert(old_entries[i] == e[i]);
                        assert(entries_map(old_entries)[old_entries[i].0] == old_entries[i].1);
                    } else {
                        assert(old_entries[i - 1] == e[i]);
                        assert(entries_map(old_entries)[old_entries[i - 1].0] == old_entries[i - 1].1);
                    }
                }
            }
            assert(entries_map(e) =~= entries_map(old_entries).insert(name@, animation@));
        }
        self.entries = entries;
    }

    /// The state names, in ascending order.
    pub fn keys(&self) -> (names: Vec<String>)
        ensures
            names@.len() == self.names().len(),
            forall|i: int| 0 <= i < names@.len() ==> #[trigger] names@[i]@ == self.names()[i],
    {
        let mut names: Vec<String> = Vec::new();
        let mut i: usize = 0;
        while i < self.entries.len()
            invariant
                i <= self.entries@.len(),
                names@.len() == i,
                forall|k: int| 0 <= k < i ==> #[trigger] names@[k]@ == self.names()[k],
            decreases self.entries@.len() - i,
        {
            names.push(self.entries[i].0.clone());
            i = i + 1;
        }
        names
    }

    /// The state to preview first: `idle` when there is one, else the first name, else
    /// the empty name.
    pub fn preferred_state(&self) -> (name: String)
        ensures
            self@.dom().contains("idle"@) ==> name@ == "idle"@,
            !self@.dom().contains("idle"@) && self.names().len() > 0 ==> name@ == self.names()[0],
            !self@.dom().contains("idle"@) && self.names().len() == 0 ==> name@ == Seq::<char>::empty(),
    {
        if self.contains_key("idle") {
            return "idle".to_owned();
        }
        if self.entries.len() > 0 {
            return self.entries[0].0.clone();
        }
        String::new()
    }

}

} // verus!
