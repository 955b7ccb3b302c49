use vstd::prelude::*;

verus! {

use crate::errors::VaultError;

/// The mathematical value of a vault: its label, identifier, secret entries
/// in insertion order, and lifecycle flag.
#[verifier::ext_equal]
pub struct NodeView {
    pub name: Seq<char>,
    pub id: Seq<char>,
    pub entries: Seq<(Seq<char>, Seq<char>)>,
    pub status: bool,
}

/// The views of a sequence of owned string pairs.
pub open spec fn view_entries(s: Seq<(String, String)>) -> Seq<(Seq<char>, Seq<char>)> {
    s.map_values(|p: (String, String)| (p.0@, p.1@))
}

/// No two entries carry the same key.
pub open spec fn entry_keys_unique(entries: Seq<(Seq<char>, Seq<char>)>) -> bool {
    forall|i: int, j: int| 0 <= i < j < entries.len() ==> entries[i].0 != entries[j].0
}

/// The key/value map that a sequence of entries denotes; a later entry for a
/// key overrides an earlier one (irrelevant under unique keys).
pub open spec fn map_of(entries: Seq<(Seq<char>, Seq<char>)>) -> Map<Seq<char>, Seq<char>>
    decreases entries.len(),
{
    if entries.len() == 0 {
        Map::empty()
    } else {
        map_of(entries.drop_last()).insert(entries.last().0, entries.last().1)
    }
}

/// The denoted map contains exactly the keys of the entries.
pub proof fn lemma_map_of_keys(entries: Seq<(Seq<char>, Seq<char>)>)
    ensures
        forall|k: Seq<char>| #[trigger]
            map_of(entries).contains_key(k) ==> exists|i: int|
                0 <= i < entries.len() && entries[i].0 == k,
        forall|i: int|
            0 <= i < entries.len() ==> map_of(entries).contains_key(#[trigger] entries[i].0),
    decreases entries.len(),
{
    if entries.len() > 0 {
        lemma_map_of_keys(entries.drop_last());
        assert forall|i: int| 0 <= i < entries.len() implies map_of(entries).contains_key(
            #[trigger] entries[i].0,
        ) by {
            if i < entries.len() - 1 {
                assert(entries.drop_last()[i] == entries[i]);
            }
        }
        assert forall|k: Seq<char>| #[trigger] map_of(entries).contains_key(k) implies exists|
            i: int,
        | 0 <= i < entries.len() && entries[i].0 == k by {
            if k != entries.last().0 {
                assert(map_of(entries.drop_last()).contains_key(k));
                let i = choose|i: int|
                    0 <= i < entries.drop_last().len() && entries.drop_last()[i].0 == k;
                assert(entries.drop_last()[i] == entries[i]);
                assert(entries[i].0 == k);
            } else {
                assert(entries[entries.len() - 1].0 == k);
            }
        }
    }
}

/// Under unique keys, each entry is bound to its own value in the map.
pub proof fn lemma_map_of_index(entries: Seq<(Seq<char>, Seq<char>)>, i: int)
    requires
        entry_keys_unique(entries),
        0 <= i < entries.len(),
    ensures
        map_of(entries).contains_key(entries[i].0),
        map_of(entries)[entries[i].0] == entries[i].1,
    decreases entries.len(),
{
    if i < entries.len() - 1 {
        assert forall|a: int, b: int|
            0 <= a < b < entries.drop_last().len() implies entries.drop_last()[a].0
            != entries.drop_last()[b].0 by {
            assert(entries[a].0 != entries[b].0);
        }
        lemma_map_of_index(entries.drop_last(), i);
        assert(entries[i].0 != entries.last().0);
    }
}

/// Replacing the value of the entry at `i` denotes inserting under its key.
pub proof fn lemma_map_of_update(entries: Seq<(Seq<char>, Seq<char>)>, i: int, v: Seq<char>)
    requires
        entry_keys_unique(entries),
        0 <= i < entries.len(),
    ensures
        map_of(entries.update(i, (entries[i].0, v))) == map_of(entries).insert(entries[i].0, v),
    decreases entries.len(),
{
    let k = entries[i].0;
    let upd = entries.update(i, (k, v));
    if i == entries.len() - 1 {
        assert(upd.drop_last() =~= entries.drop_last());
        assert(upd.last() == (k, v));
        assert(map_of(entries.drop_last()).insert(k, entries.last().1).insert(k, v)
            =~= map_of(entries.drop_last()).insert(k, v));
    } else {
        assert forall|a: int, b: int|
            0 <= a < b < entries.drop_last().len() implies entries.drop_last()[a].0
            != entries.drop_last()[b].0 by {
            assert(entries[a].0 != entries[b].0);
        }
        lemma_map_of_update(entries.drop_last(), i, v);
        assert(upd.drop_last() =~= entries.drop_last().update(i, (k, v)));
        assert(upd.last() == entries.last());
        assert(k != entries.last().0);
        assert(map_of(entries.drop_last()).insert(k, v).insert(entries.last().0, entries.last().1)
            =~= map_of(entries.drop_last()).insert(entries.last().0, entries.last().1).insert(
            k,
            v,
        ));
    }
}

/// Appending an entry with a fresh key denotes inserting it.
pub proof fn lemma_map_of_push(entries: Seq<(Seq<char>, Seq<char>)>, k: Seq<char>, v: Seq<char>)
    ensures
        map_of(entries.push((k, v))) == map_of(entries).insert(k, v),
{
    assert(entries.push((k, v)).drop_last() =~= entries);
    assert(entries.push((k, v)).last() == (k, v));
}

/// Law: updating is idempotent. Writing `k -> v` into a vault's map twice in
/// a row leaves the same map as writing it once, and looking `k` up yields
/// `v` after either write.
pub proof fn lemma_update_idempotent(m: Map<Seq<char>, Seq<char>>, k: Seq<char>, v: Seq<char>)
    ensures
        m.insert(k, v).insert(k, v) == m.insert(k, v),
        m.insert(k, v)[k] == v,
{
    assert(m.insert(k, v).insert(k, v) =~= m.insert(k, v));
}

/// Relies on uuid's `Uuid::new_v4` and its canonical text form: a freshly
/// drawn random identifier. Nothing is promised of the drawn value.
#[verifier::external_body]
fn fresh_id() -> (r: String) {
    uuid::Uuid::new_v4().to_string()
}

/// A vault: a named container of secret key/value pairs with a unique
/// identifier. Entries are held in insertion order with pairwise distinct
/// keys; contracts speak of the key/value map they denote.
pub struct Node {
    name: String,
    id: String,
    data: Vec<(String, String)>,
    status: bool,
}

impl View for Node {
    type V = NodeView;

    closed spec fn view(&self) -> NodeView {
        NodeView {
            name: self.name@,
            id: self.id@,
            entries: view_entries(self.data@),
            status: self.status,
        }
    }
}

impl NodeView {
    /// The key/value map this vault denotes.
    pub open spec fn data_map(self) -> Map<Seq<char>, Seq<char>> {
        map_of(self.entries)
    }
}

/// Find the index of the entry holding `key`, if any.
fn find_key(data: &Vec<(String, String)>, key: &String) -> (r: Option<usize>)
    ensures
        match r {
            Some(i) => i < data@.len() && view_entries(data@)[i as int].0 == key@,
            None => forall|j: int|
                0 <= j < data@.len() ==> view_entries(data@)[j].0 != key@,
        },
{
    let mut i: usize = 0;
    while i < data.len()
        invariant
            i <= data@.len(),
            forall|j: int| 0 <= j < i ==> view_entries(data@)[j].0 != key@,
        decreases data@.len() - i,
    {
        if data[i].0 == *key {
            return Some(i);
        }
        i = i + 1;
    }
    None
}

impl Node {
    /// Entries carry pairwise distinct keys.
    pub open spec fn wf(&self) -> bool {
        entry_keys_unique(self@.entries)
    }

    /// Create a vault with the given label, a fresh identifier, no entries,
    /// and the active flag set. Construction validates that the new vault
    /// echoes the requested label; as that validation cannot fail here, the
    /// result is always a vault, and the error path is kept for interface
    /// completeness.
    pub fn new(vault_name: String) -> (r: Result<Node, VaultError>)
        ensures
            r matches Ok(n) && n@.name == vault_name@ && n@.entries.len() == 0 && n@.status
                && n.wf(),
    {
        let node = Node { name: vault_name.clone(), id: fresh_id(), data: Vec::new(), status: true };
        if node.name == vault_name {
            Ok(node)
        } else {
            Err(VaultError::CreationFailed)
        }
    }

    /// Assemble a vault from already-validated parts.
    pub(crate) fn from_parts(name: String, id: String, data: Vec<(String, String)>, status: bool) -> (r: Node)
        ensures
            r@.name == name@,
            r@.id == id@,
            r@.entries == view_entries(data@),
            r@.status == status,
    {
        Node { name, id, data, status }
    }

    /// The vault's label.
    pub fn name(&self) -> (r: &String)
        ensures
            r@ == self@.name,
    {
        &self.name
    }

    /// The vault's identifier.
    pub fn id(&self) -> (r: &String)
        ensures
            r@ == self@.id,
    {
        &self.id
    }

    /// The vault's entries, in insertion order.
    pub fn entries(&self) -> (r: &Vec<(String, String)>)
        ensures
            view_entries(r@) == self@.entries,
    {
        &self.data
    }

    /// The vault's lifecycle flag.
    pub fn status(&self) -> (r: bool)
        ensures
            r == self@.status,
    {
        self.status
    }

    /// Upsert `key -> value`: overwrite the entry holding `key`, or append a
    /// new one.
    fn upsert(&mut self, key: String, value: String)
        requires
            old(self).wf(),
        ensures
            final(self).wf(),
            final(self)@.name == old(self)@.name,
            final(self)@.id == old(self)@.id,
            final(self)@.status == old(self)@.status,
            final(self)@.data_map() == old(self)@.data_map().insert(key@, value@),
    {
        let ghost entries0 = self@.entries;
        let ghost key_view = key@;
        let ghost value_view = value@;
        match find_key(&self.data, &key) {
            Some(i) => {
                self.data.set(i, (key, value));
                proof {
                    assert(self@.entries =~= entries0.update(i as int, (key_view, value_view)));
                    assert(entries0.update(i as int, (key_view, value_view)) == entries0.update(
                        i as int,
                        (entries0[i as int].0, value_view),
                    ));
                    lemma_map_of_update(entries0, i as int, value_view);
                    assert forall|a: int, b: int|
                        0 <= a < b < final(self)@.entries.len() implies final(self)@.entries[a].0
                        != final(self)@.entries[b].0 by {
                        assert(entries0[a].0 != entries0[b].0);
                    }
                }
            },
            None => {
                self.data.push((key, value));
                proof {
                    assert(self@.entries =~= entries0.push((key_view, value_view)));
                    lemma_map_of_push(entries0, key_view, value_view);
                    assert forall|a: int, b: int|
                        0 <= a < b < final(self)@.entries.len() implies final(self)@.entries[a].0
                        != final(self)@.entries[b].0 by {
                        if b < entries0.len() {
                            assert(entries0[a].0 != entries0[b].0);
                        } else {
                            assert(entries0[a].0 != key_view);
                        }
                    }
                }
            },
        }
    }

    /// Store a secret: upsert `key -> value` (last write wins) and return a
    /// human-readable confirmation; callers do not use the text for control
    /// flow.
    pub fn store(&mut self, key: String, value: String) -> (r: String)
        requires
            old(self).wf(),
        ensures
            final(self).wf(),
            final(self)@.name == old(self)@.name,
            final(self)@.id == old(self)@.id,
            final(self)@.status == old(self)@.status,
            final(self)@.data_map() == old(self)@.data_map().insert(key@, value@),
            r@ == "created entry with key: "@ + key@,
    {
        let msg = "created entry with key: ".to_owned().concat(key.as_str());
        self.upsert(key, value);
        msg
    }

    /// Update a secret: replace whatever `key` held by `new_value` and return
    /// the stored value. For present keys this acts exactly as `store`.
    pub fn update(&mut self, key: String, new_value: String) -> (r: Option<String>)
        requires
            old(self).wf(),
        ensures
            final(self).wf(),
            final(self)@.name == old(self)@.name,
            final(self)@.id == old(self)@.id,
            final(self)@.status == old(self)@.status,
            final(self)@.data_map() == old(self)@.data_map().insert(key@, new_value@),
            r matches Some(v) && v@ == new_value@,
    {
        let ret = new_value.clone();
        self.upsert(key, new_value);
        Some(ret)
    }

    /// Look up the secret stored under `key`; an absent result means "no such
    /// key", not an error.
    pub fn retrieve(&self, key: String) -> (r: Option<&String>)
        requires
            self.wf(),
        ensures
            match r {
                Some(v) => self@.data_map().contains_key(key@) && v@ == self@.data_map()[key@],
                None => !self@.data_map().contains_key(key@),
            },
    {
        match find_key(&self.data, &key) {
            Some(i) => {
                proof {
                    lemma_map_of_index(self@.entries, i as int);
                }
                Some(&self.data[i].1)
            },
            None => {
                proof {
                    lemma_map_of_keys(self@.entries);
                }
                None
            },
        }
    }

    /// Deep-copy the entries, preserving their views.
    fn clone_entries(&self) -> (r: Vec<(String, String)>)
        ensures
            view_entries(r@) == self@.entries,
    {
        let mut out: Vec<(String, String)> = Vec::new();
        let mut i: usize = 0;
        while i < self.data.len()
            invariant
                i <= self.data@.len(),
                out@.len() == i,
                view_entries(out@) =~= view_entries(self.data@).take(i as int),
            decreases self.data@.len() - i,
        {
            let pair = &self.data[i];
            let ghost prev = out@;
            out.push((pair.0.clone(), pair.1.clone()));
            proof {
                assert(out@.drop_last() =~= prev);
                assert forall|j: int| 0 <= j < out@.len() implies view_entries(out@)[j]
                    == view_entries(self.data@).take(i as int + 1)[j] by {
                    if j < i as int {
                        assert(out@[j] == prev[j]);
                        assert(view_entries(prev)[j] == view_entries(self.data@).take(i as int)[j]);
                    } else {
                        assert(out@[j].0@ == self.data@[i as int].0@);
                        assert(out@[j].1@ == self.data@[i as int].1@);
                    }
                }
                assert(view_entries(out@) =~= view_entries(self.data@).take(i as int + 1));
            }
            i = i + 1;
        }
        proof {
            assert(view_entries(self.data@).take(self.data@.len() as int) =~= view_entries(
                self.data@,
            ));
        }
        out
    }

    /// Produce `instance` independent deep copies of this vault: each carries
    /// a freshly drawn identifier, the same label, a value-copy of the data
    /// as it stands now, and the active flag set.
    pub fn replicate(&self, instance: usize) -> (r: Vec<Node>)
        requires
            self.wf(),
        ensures
            r@.len() == instance,
            forall|i: int|
                0 <= i < r@.len() ==> {
                    &&& (#[trigger] r@[i])@.name == self@.name
                    &&& r@[i]@.entries == self@.entries
                    &&& r@[i]@.status == true
                    &&& r@[i].wf()
                },
    {
        let mut replicated_nodes: Vec<Node> = Vec::new();
        let mut n: usize = 0;
        while n < instance
            invariant
                n <= instance,
                self.wf(),
                replicated_nodes@.len() == n,
                forall|i: int|
                    0 <= i < replicated_nodes@.len() ==> {
                        &&& (#[trigger] replicated_nodes@[i])@.name == self@.name
                        &&& replicated_nodes@[i]@.entries == self@.entries
                        &&& replicated_nodes@[i]@.status == true
                        &&& replicated_nodes@[i].wf()
                    },
            decreases instance - n,
        {
            let replicated_node = Node {
                name: self.name.clone(),
                id: fresh_id(),
                data: self.clone_entries(),
                status: true,
            };
            replicated_nodes.push(replicated_node);
            n = n + 1;
        }
        replicated_nodes
    }
}

impl Clone for Node {
    /// A deep copy whose mathematical value equals the original's.
    fn clone(&self) -> (r: Self)
        ensures
            r@ == self@,
    {
        let r = Node {
            name: self.name.clone(),
            id: self.id.clone(),
            data: self.clone_entries(),
            status: self.status,
        };
        proof {
            assert(r@ =~= self@);
        }
        r
    }
}

} // verus!
