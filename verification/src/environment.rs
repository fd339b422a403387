//! The table of variables: a finite map from names to values, kept as a
//! vector of bindings in the order of their names.

use vstd::prelude::*;
use vstd::string::*;
use vstd::utf8::*;

verus! {

/// The order of two byte strings: the first byte in which they differ
/// decides, and a proper prefix comes first.
pub open spec fn bytes_precede(a: Seq<u8>, b: Seq<u8>) -> bool
    decreases a.len(),
{
    if b.len() == 0 {
        false
    } else if a.len() == 0 {
        true
    } else if a[0] != b[0] {
        a[0] < b[0]
    } else {
        bytes_precede(a.drop_first(), b.drop_first())
    }
}

/// The order of names: that of their UTF-8 encodings, which is the order
/// that Rust gives to strings.
pub open spec fn name_precedes(a: Seq<char>, b: Seq<char>) -> bool {
    bytes_precede(encode_utf8(a), encode_utf8(b))
}

/// No byte string comes before itself.
pub proof fn lemma_bytes_precede_irreflexive(a: Seq<u8>)
    ensures
        !bytes_precede(a, a),
    decreases a.len(),
{
    if a.len() > 0 {
        lemma_bytes_precede_irreflexive(a.drop_first());
    }
}

/// What comes before something that comes before `c` comes before `c`.
pub proof fn lemma_bytes_precede_transitive(a: Seq<u8>, b: Seq<u8>, c: Seq<u8>)
    requires
        bytes_precede(a, b),
        bytes_precede(b, c),
    ensures
        bytes_precede(a, c),
    decreases a.len(),
{
    if a.len() > 0 && a[0] == b[0] && b[0] == c[0] {
        lemma_bytes_precede_transitive(a.drop_first(), b.drop_first(), c.drop_first());
    }
}

/// Of two different byte strings one comes before the other.
pub proof fn lemma_bytes_precede_total(a: Seq<u8>, b: Seq<u8>)
    ensures
        bytes_precede(a, b) || bytes_precede(b, a) || a == b,
    decreases a.len(),
{
    if a.len() > 0 && b.len() > 0 && a[0] == b[0] {
        lemma_bytes_precede_total(a.drop_first(), b.drop_first());
        if a.drop_first() == b.drop_first() {
            assert(a =~= seq![a[0]] + a.drop_first());
            assert(b =~= seq![b[0]] + b.drop_first());
        }
    } else if a.len() == 0 && b.len() == 0 {
        assert(a =~= b);
    }
}

/// The order of names is a strict total order: no name comes before itself,
/// the order is transitive, and of two different names one comes first.
pub proof fn lemma_name_order(a: Seq<char>, b: Seq<char>, c: Seq<char>)
    ensures
        !name_precedes(a, a),
        name_precedes(a, b) && name_precedes(b, c) ==> name_precedes(a, c),
        name_precedes(a, b) || name_precedes(b, a) || a == b,
{
    lemma_bytes_precede_irreflexive(encode_utf8(a));
    if name_precedes(a, b) && name_precedes(b, c) {
        lemma_bytes_precede_transitive(encode_utf8(a), encode_utf8(b), encode_utf8(c));
    }
    lemma_bytes_precede_total(encode_utf8(a), encode_utf8(b));
    if encode_utf8(a) == encode_utf8(b) {
        encode_utf8_decode_utf8(a);
        encode_utf8_decode_utf8(b);
    }
}

/// Whether `a` comes before `b` in the order of names.
pub fn precedes(a: &str, b: &str) -> (before: bool)
    ensures
        before == name_precedes(a@, b@),
{
    let x = a.as_bytes();
    let y = b.as_bytes();
    let mut i: usize = 0;
    assert(x@.skip(0) == x@ && y@.skip(0) == y@);
    while i < x.len() && i < y.len() && x[i] == y[i]
        invariant
            x@ == encode_utf8(a@),
            y@ == encode_utf8(b@),
            i <= x@.len(),
            i <= y@.len(),
            bytes_precede(x@, y@) == bytes_precede(x@.skip(i as int), y@.skip(i as int)),
        decreases x@.len() - i,
    {
        assert(x@.skip(i as int).drop_first() == x@.skip(i + 1));
        assert(y@.skip(i as int).drop_first() == y@.skip(i + 1));
        i = i + 1;
    }
    if i >= y.len() {
        false
    } else if i >= x.len() {
        true
    } else {
        x[i] < y[i]
    }
}

/// Whether `a` and `b` are the same name.
pub fn same_name(a: &str, b: &str) -> (same: bool)
    ensures
        same == (a@ == b@),
{
    let x = a.as_bytes();
    let y = b.as_bytes();
    proof {
        encode_utf8_decode_utf8(a@);
        encode_utf8_decode_utf8(b@);
    }
    if x.len() != y.len() {
        return false;
    }
    let mut i: usize = 0;
    while i < x.len()
        invariant
            x@ == encode_utf8(a@),
            y@ == encode_utf8(b@),
            x@.len() == y@.len(),
            i <= x@.len(),
            x@.take(i as int) == y@.take(i as int),
        decreases x@.len() - i,
    {
        if x[i] != y[i] {
            return false;
        }
        assert(x@.take(i + 1) == x@.take(i as int).push(x@[i as int]));
        assert(y@.take(i + 1) == y@.take(i as int).push(y@[i as int]));
        i = i + 1;
    }
    assert(x@ == x@.take(i as int));
    assert(y@ == y@.take(i as int));
    true
}

/// A binding as a pair of plain values.
pub type Binding = (Seq<char>, i64);

/// The bindings of a vector of entries, in order.
pub open spec fn binding_views(entries: Seq<(String, i64)>) -> Seq<Binding> {
    entries.map_values(|e: (String, i64)| (e.0@, e.1))
}

/// Each name comes before all the names behind it; so no name occurs twice.
pub open spec fn sorted_by_name(bindings: Seq<Binding>) -> bool {
    forall|i: int, j: int|
        0 <= i < j < bindings.len() ==> name_precedes(
            (#[trigger] bindings[i]).0,
            (#[trigger] bindings[j]).0,
        )
}

/// `bindings` holds the pairs of `map`, each once, in the order of the names.
pub open spec fn lists(bindings: Seq<Binding>, map: Map<Seq<char>, i64>) -> bool {
    &&& sorted_by_name(bindings)
    &&& forall|i: int|
        0 <= i < bindings.len() ==> map.contains_pair(
            (#[trigger] bindings[i]).0,
            bindings[i].1,
        )
    &&& forall|name: Seq<char>| #[trigger]
        map.contains_key(name) ==> exists|i: int|
            0 <= i < bindings.len() && (#[trigger] bindings[i]).0 == name
}

/// The map that a row of bindings stands for; of two bindings of one name
/// the later one counts.
pub open spec fn map_of(bindings: Seq<Binding>) -> Map<Seq<char>, i64>
    decreases bindings.len(),
{
    if bindings.len() == 0 {
        Map::empty()
    } else {
        map_of(bindings.drop_last()).insert(bindings.last().0, bindings.last().1)
    }
}

/// The value of `name` in `map`, if it has one.
pub open spec fn lookup(map: Map<Seq<char>, i64>, name: Seq<char>) -> Option<i64> {
    if map.contains_key(name) {
        Some(map[name])
    } else {
        None
    }
}

/// A sorted row of bindings lists the map that it stands for.
pub proof fn lemma_sorted_lists_its_map(bindings: Seq<Binding>)
    requires
        sorted_by_name(bindings),
    ensures
        lists(bindings, map_of(bindings)),
    decreases bindings.len(),
{
    if bindings.len() > 0 {
        let front = bindings.drop_last();
        let last = bindings.last();
        assert(sorted_by_name(front)) by {
            assert forall|i: int, j: int| 0 <= i < j < front.len() implies name_precedes(
                (#[trigger] front[i]).0,
                (#[trigger] front[j]).0,
            ) by {
                assert(front[i] == bindings[i] && front[j] == bindings[j]);
            }
        }
        lemma_sorted_lists_its_map(front);
        let map = map_of(bindings);
        assert forall|i: int| 0 <= i < bindings.len() implies map.contains_pair(
            (#[trigger] bindings[i]).0,
            bindings[i].1,
        ) by {
            if i < front.len() {
                assert(front[i] == bindings[i]);
                assert(name_precedes(bindings[i].0, bindings[bindings.len() - 1].0));
                lemma_name_order(last.0, last.0, last.0);
            }
        }
        assert forall|name: Seq<char>| #[trigger] map.contains_key(name) implies exists|i: int|
            0 <= i < bindings.len() && (#[trigger] bindings[i]).0 == name by {
            if name == last.0 {
                assert(bindings[bindings.len() - 1].0 == name);
            } else {
                assert(map_of(front).contains_key(name));
                let i = choose|i: int| 0 <= i < front.len() && (#[trigger] front[i]).0 == name;
                assert(bindings[i].0 == name);
            }
        }
    }
}

/// A row of bindings lists one map only.
pub proof fn lemma_lists_one_map(
    bindings: Seq<Binding>,
    a: Map<Seq<char>, i64>,
    b: Map<Seq<char>, i64>,
)
    requires
        lists(bindings, a),
        lists(bindings, b),
    ensures
        a == b,
{
    assert forall|name: Seq<char>| a.contains_key(name) implies b.contains_key(name) && a[name]
        == b[name] by {
        let i = choose|i: int| 0 <= i < bindings.len() && (#[trigger] bindings[i]).0 == name;
        assert(b.contains_pair(bindings[i].0, bindings[i].1));
        assert(a.contains_pair(bindings[i].0, bindings[i].1));
    }
    assert forall|name: Seq<char>| b.contains_key(name) implies a.contains_key(name) by {
        let i = choose|i: int| 0 <= i < bindings.len() && (#[trigger] bindings[i]).0 == name;
        assert(a.contains_pair(bindings[i].0, bindings[i].1));
    }
    assert(a =~= b);
}

/// A finite map from names to values.
pub struct Environment {
    entries: Vec<(String, i64)>,
}

impl View for Environment {
    type V = Map<Seq<char>, i64>;

    closed spec fn view(&self) -> Map<Seq<char>, i64> {
        map_of(binding_views(self.entries@))
    }
}

impl Environment {
    #[verifier::type_invariant]
    spec fn ordered(self) -> bool {
        sorted_by_name(binding_views(self.entries@))
    }

    /// The environment that binds no name.
    pub fn new() -> (env: Environment)
        ensures
            env@ == Map::<Seq<char>, i64>::empty(),
    {
        Environment { entries: Vec::new() }
    }

    /// The place of `name` among the entries: the index of the first entry
    /// whose name does not come before it, and whether that entry has it.
    fn find(&self, name: &str) -> (place: (usize, bool))
        ensures
            place.0 <= self.entries.len(),
            forall|j: int|
                0 <= j < place.0 ==> name_precedes(
                    (#[trigger] binding_views(self.entries@)[j]).0,
                    name@,
                ),
            place.1 ==> place.0 < self.entries.len() && binding_views(
                self.entries@,
            )[place.0 as int].0 == name@,
            !place.1 && place.0 < self.entries.len() ==> name_precedes(
                name@,
                binding_views(self.entries@)[place.0 as int].0,
            ),
    {
        let mut i: usize = 0;
        while i < self.entries.len() && precedes(self.entries[i].0.as_str(), name)
            invariant
                i <= self.entries.len(),
                forall|j: int|
                    0 <= j < i ==> name_precedes(
                        (#[trigger] binding_views(self.entries@)[j]).0,
                        name@,
                    ),
            decreases self.entries.len() - i,
        {
            i = i + 1;
        }
        if i < self.entries.len() {
            let found = same_name(self.entries[i].0.as_str(), name);
            proof {
                lemma_name_order(name@, binding_views(self.entries@)[i as int].0, name@);
            }
            (i, found)
        } else {
            (i, false)
        }
    }

    /// The value bound to `name`, if any.
    pub fn get(&self, name: &str) -> (value: Option<i64>)
        ensures
            value == lookup(self@, name@),
    {
        let (i, found) = self.find(name);
        proof {
            use_type_invariant(self);
            let bindings = binding_views(self.entries@);
            lemma_sorted_lists_its_map(bindings);
            if !found && self@.contains_key(name@) {
                let k = choose|k: int|
                    0 <= k < bindings.len() && (#[trigger] bindings[k]).0 == name@;
                lemma_name_order(name@, name@, name@);
                if k > i {
                    lemma_name_order(name@, bindings[i as int].0, bindings[k].0);
                }
            }
        }
        if found {
            Some(self.entries[i].1)
        } else {
            None
        }
    }

    /// Binds `name` to `value`, in place of what it was bound to before.
    pub fn insert(&mut self, name: String, value: i64)
        ensures
            final(self)@ == old(self)@.insert(name@, value),
    {
        let (i, found) = self.find(name.as_str());
        let ghost before = binding_views(self.entries@);
        let ghost after = if found {
            before.update(i as int, (name@, value))
        } else {
            before.insert(i as int, (name@, value))
        };
        proof {
            use_type_invariant(&*self);
            lemma_sorted_lists_its_map(before);
            lemma_name_order(name@, name@, name@);
            assert forall|a: int, b: int| 0 <= a < b < after.len() implies name_precedes(
                (#[trigger] after[a]).0,
                (#[trigger] after[b]).0,
            ) by {
                if found {
                    assert(after[a].0 == before[a].0 && after[b].0 == before[b].0);
                } else {
                    if b < i {
                        assert(after[a] == before[a] && after[b] == before[b]);
                    } else if b == i {
                        assert(after[a] == before[a]);
                    } else if a < i {
                        assert(after[a] == before[a] && after[b] == before[b - 1]);
                        if b - 1 > i {
                            assert(name_precedes(before[i as int].0, before[b - 1].0));
                        }
                        lemma_name_order(before[a].0, name@, before[i as int].0);
                        lemma_name_order(before[a].0, before[i as int].0, before[b - 1].0);
                    } else if a == i {
                        assert(after[b] == before[b - 1]);
                        if b - 1 > i {
                            assert(name_precedes(before[i as int].0, before[b - 1].0));
                            lemma_name_order(name@, before[i as int].0, before[b - 1].0);
                        }
                    } else {
                        assert(after[a] == before[a - 1] && after[b] == before[b - 1]);
                    }
                }
            }
            let map = old(self)@.insert(name@, value);
            assert forall|k: int| 0 <= k < after.len() implies map.contains_pair(
                (#[trigger] after[k]).0,
                after[k].1,
            ) by {
                if found {
                    if k != i {
                        assert(after[k] == before[k]);
                        if k < i {
                            assert(name_precedes(before[k].0, before[i as int].0));
                        } else {
                            assert(name_precedes(before[i as int].0, before[k].0));
                        }
                    }
                } else {
                    if k < i {
                        assert(after[k] == before[k]);
                    } else if k > i {
                        assert(after[k] == before[k - 1]);
                        if k - 1 > i {
                            assert(name_precedes(before[i as int].0, before[k - 1].0));
                            lemma_name_order(name@, before[i as int].0, before[k - 1].0);
                        }
                    }
                }
            }
            assert forall|n: Seq<char>| #[trigger] map.contains_key(n) implies exists|k: int|
                0 <= k < after.len() && (#[trigger] after[k]).0 == n by {
                if n == name@ {
                    assert(after[i as int].0 == n);
                } else {
                    let k = choose|k: int|
                        0 <= k < before.len() && (#[trigger] before[k]).0 == n;
                    if found || k < i {
                        assert(after[k].0 == n);
                    } else {
                        assert(after[k + 1] == before[k]);
                    }
                }
            }
            assert(lists(after, map));
            lemma_sorted_lists_its_map(after);
            lemma_lists_one_map(after, map, map_of(after));
        }
        let mut entries: Vec<(String, i64)> = Vec::new();
        assert(binding_views(entries@) =~= Seq::<Binding>::empty());
        std::mem::swap(&mut self.entries, &mut entries);
        if found {
            assert(binding_views(entries@.update(i as int, (name, value))) == after);
            entries.set(i, (name, value));
        } else {
            assert(binding_views(entries@.insert(i as int, (name, value))) == after);
            entries.insert(i, (name, value));
        }
        std::mem::swap(&mut self.entries, &mut entries);
    }

    /// The bindings, each once, in the order of their names.
    pub fn list(&self) -> (bindings: Vec<(String, i64)>)
        ensures
            lists(binding_views(bindings@), self@),
    {
        let mut bindings: Vec<(String, i64)> = Vec::new();
        let mut i: usize = 0;
        while i < self.entries.len()
            invariant
                i <= self.entries.len(),
                binding_views(bindings@) == binding_views(self.entries@).take(i as int),
            decreases self.entries.len() - i,
        {
            let ghost listed = binding_views(bindings@);
            let name = self.entries[i].0.clone();
            let value = self.entries[i].1;
            bindings.push((name, value));
            assert(binding_views(bindings@) == listed.push((name@, value)));
            assert(binding_views(self.entries@).take(i + 1) == binding_views(self.entries@).take(
                i as int,
            ).push(binding_views(self.entries@)[i as int]));
            i = i + 1;
        }
        proof {
            use_type_invariant(self);
            assert(binding_views(self.entries@).take(i as int) == binding_views(self.entries@));
            lemma_sorted_lists_its_map(binding_views(self.entries@));
        }
        bindings
    }
}

} // verus!
