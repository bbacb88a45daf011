//! The configuration table: the scripted entries that the multiplexer runs,
//! keyed by their identifier.
use vstd::prelude::*;

verus! {

/// One scripted entry of the configuration file.
///
/// `when` says on what the entry runs (`LUA`, `KEYBOARD` or `TERM`, in
/// any case), `code` is the Lua code to run and `trigger` the regular
/// expression that fires it, for keyboard and terminal entries.
#[derive(Debug, Clone)]
pub struct ConfigEntry {
    pub id: String,
    pub when: String,
    pub code: String,
    pub trigger: Option<String>,
}

/// What a [`ConfigEntry`] holds, as plain values.
pub struct ConfigEntryView {
    pub id: Seq<char>,
    pub when: Seq<char>,
    pub code: Seq<char>,
    pub trigger: Option<Seq<char>>,
}

pub open spec fn opt_view(o: Option<String>) -> Option<Seq<char>> {
    match o {
        Some(s) => Some(s@),
        None => None,
    }
}

impl View for ConfigEntry {
    type V = ConfigEntryView;

    open spec fn view(&self) -> ConfigEntryView {
        ConfigEntryView {
            id: self.id@,
            when: self.when@,
            code: self.code@,
            trigger: opt_view(self.trigger),
        }
    }
}

/// The table that a list of entries gives: each entry under its id, a
/// later entry replacing an earlier one with the same id.
pub open spec fn entries_table(es: Seq<ConfigEntryView>) -> Map<Seq<char>, ConfigEntryView>
    decreases es.len(),
{
    if es.len() == 0 {
        Map::empty()
    } else {
        entries_table(es.drop_last()).insert(es.last().id, es.last())
    }
}

/// `l` with `e` in place: in the position of the entry with the same id,
/// if there is one, else at the end.
pub open spec fn place(l: Seq<ConfigEntryView>, e: ConfigEntryView) -> Seq<ConfigEntryView> {
    if exists|i: int| 0 <= i < l.len() && #[trigger] l[i].id == e.id {
        l.update(choose|i: int| 0 <= i < l.len() && #[trigger] l[i].id == e.id, e)
    } else {
        l.push(e)
    }
}

/// The listing that a list of entries gives: one entry per id, in the
/// order in which the ids first come, each the last entry with its id.
pub open spec fn listing_of(es: Seq<ConfigEntryView>) -> Seq<ConfigEntryView>
    decreases es.len(),
{
    if es.len() == 0 {
        Seq::empty()
    } else {
        place(listing_of(es.drop_last()), es.last())
    }
}

/// The ids of the table are those of the entries, and each id holds the
/// last entry with that id.
pub proof fn lemma_entries_table_last_wins(es: Seq<ConfigEntryView>)
    ensures
        forall|k: Seq<char>| #[trigger] entries_table(es).contains_key(k) <==> exists|i: int|
            0 <= i < es.len() && #[trigger] es[i].id == k,
        forall|i: int|
            0 <= i < es.len() && (forall|j: int| i < j < es.len() ==> #[trigger] es[j].id != es[i].id)
                ==> entries_table(es)[#[trigger] es[i].id] == es[i],
    decreases es.len(),
{
    if es.len() == 0 {
        assert(entries_table(es) == Map::<Seq<char>, ConfigEntryView>::empty());
    } else {
        let d = es.drop_last();
        let n = es.len() - 1;
        lemma_entries_table_last_wins(d);
        assert forall|k: Seq<char>| #[trigger] entries_table(es).contains_key(k) <==> exists|i: int|
            0 <= i < es.len() && #[trigger] es[i].id == k by {
            if entries_table(es).contains_key(k) && k != es[n].id {
                assert(entries_table(d).contains_key(k));
                let i = choose|i: int| 0 <= i < d.len() && #[trigger] d[i].id == k;
                assert(es[i].id == k);
            }
            if k == es[n].id {
                assert(es[n].id == k);
            }
            if exists|i: int| 0 <= i < es.len() && #[trigger] es[i].id == k {
                let i = choose|i: int| 0 <= i < es.len() && #[trigger] es[i].id == k;
                if i < n {
                    assert(d[i].id == k);
                    assert(entries_table(d).contains_key(k));
                }
            }
        }
        assert forall|i: int|
            0 <= i < es.len() && (forall|j: int| i < j < es.len() ==> #[trigger] es[j].id != es[i].id)
                implies entries_table(es)[#[trigger] es[i].id] == es[i] by {
            if i < n {
                assert(es[n].id != es[i].id);
                assert forall|j: int| i < j < d.len() implies #[trigger] d[j].id != d[i].id by {
                    assert(es[j].id != es[i].id);
                }
                assert(d[i] == es[i]);
            }
        }
    }
}

/// The views of a sequence of entries.
pub open spec fn entry_views(es: Seq<ConfigEntry>) -> Seq<ConfigEntryView> {
    es.map_values(|e: ConfigEntry| e@)
}

/// The configuration entries by id.
///
/// The entries are kept in the order in which their ids first came, and
/// no two of them have the same id.
#[derive(Debug)]
pub struct ConfigDict {
    entries: Vec<ConfigEntry>,
}

/// No two of the entries have the same id.
pub open spec fn ids_distinct(es: Seq<ConfigEntry>) -> bool {
    forall|i: int, j: int|
        0 <= i < es.len() && 0 <= j < es.len() && i != j ==> #[trigger] es[i].id@ != #[trigger] es[j].id@
}

/// The table that entries with distinct ids form.
pub open spec fn table_of(es: Seq<ConfigEntry>) -> Map<Seq<char>, ConfigEntryView> {
    Map::new(
        |k: Seq<char>| exists|i: int| 0 <= i < es.len() && #[trigger] es[i].id@ == k,
        |k: Seq<char>| es[choose|i: int| 0 <= i < es.len() && #[trigger] es[i].id@ == k]@,
    )
}

impl View for ConfigDict {
    type V = Map<Seq<char>, ConfigEntryView>;

    closed spec fn view(&self) -> Map<Seq<char>, ConfigEntryView> {
        table_of(self.entries@)
    }
}

impl ConfigDict {
    #[verifier::type_invariant]
    spec fn wf(self) -> bool {
        ids_distinct(self.entries@)
    }

    /// The entries, in the order in which their ids first came.
    pub closed spec fn listing(self) -> Seq<ConfigEntry> {
        self.entries@
    }

    /// An empty table.
    pub fn new() -> (d: Self)
        ensures
            d@ == Map::<Seq<char>, ConfigEntryView>::empty(),
            d.listing().len() == 0,
    {
        let d = ConfigDict { entries: Vec::new() };
        assert(d@ =~= Map::<Seq<char>, ConfigEntryView>::empty());
        d
    }

    /// Enters `e` under its id, replacing the entry that had that id.
    pub fn insert(&mut self, e: ConfigEntry)
        ensures
            final(self)@ == old(self)@.insert(e@.id, e@),
            entry_views(final(self).listing()) == place(entry_views(old(self).listing()), e@),
    {
        proof {
            use_type_invariant(&*self);
        }
        let ghost old_es = self.entries@;
        let found = find_id(&self.entries, &e.id);
        let mut entries: Vec<ConfigEntry> = Vec::new();
        std::mem::swap(&mut entries, &mut self.entries);
        let ghost v = e@;
        match found {
            Some(i) => {
                entries[i] = e;
                proof {
                    assert forall|a: int, b: int|
                        0 <= a < entries@.len() && 0 <= b < entries@.len() && a != b implies
                        #[trigger] entries@[a].id@ != #[trigger] entries@[b].id@ by {
                        if a != i && b != i {
                            assert(old_es[a] == entries@[a] && old_es[b] == entries@[b]);
                        } else if a == i {
                            assert(old_es[b] == entries@[b]);
                            assert(old_es[i as int].id@ != old_es[b].id@);
                        } else {
                            assert(old_es[a] == entries@[a]);
                            assert(old_es[i as int].id@ != old_es[a].id@);
                        }
                    }
                    lemma_table_update(old_es, entries@, i as int);
                    let l = entry_views(old_es);
                    assert(l[i as int].id == v.id);
                    let c = choose|c: int| 0 <= c < l.len() && #[trigger] l[c].id == v.id;
                    if c != i {
                        assert(old_es[c].id@ == old_es[i as int].id@);
                    }
                    assert(entry_views(entries@) =~= l.update(i as int, v));
                }
            },
            None => {
                entries.push(e);
                proof {
                    assert forall|a: int, b: int|
                        0 <= a < entries@.len() && 0 <= b < entries@.len() && a != b implies
                        #[trigger] entries@[a].id@ != #[trigger] entries@[b].id@ by {
                        if a < old_es.len() && b < old_es.len() {
                            assert(old_es[a] == entries@[a] && old_es[b] == entries@[b]);
                        } else if a < old_es.len() {
                            assert(old_es[a] == entries@[a]);
                        } else {
                            assert(old_es[b] == entries@[b]);
                        }
                    }
                    lemma_table_push(old_es, entries@);
                    let l = entry_views(old_es);
                    assert(!exists|c: int| 0 <= c < l.len() && #[trigger] l[c].id == v.id) by {
                        if exists|c: int| 0 <= c < l.len() && #[trigger] l[c].id == v.id {
                            let c = choose|c: int| 0 <= c < l.len() && #[trigger] l[c].id == v.id;
                            assert(old_es[c].id@ != v.id);
                        }
                    }
                    assert(entry_views(entries@) =~= l.push(v));
                }
            },
        }
        self.entries = entries;
    }

    /// The entry with the given id, if there is one.
    pub fn get(&self, id: &str) -> (r: Option<&ConfigEntry>)
        ensures
            match r {
                Some(e) => self@.contains_key(id@) && self@[id@] == e@,
                None => !self@.contains_key(id@),
            },
    {
        proof {
            use_type_invariant(self);
        }
        let key = String::from_str(id);
        match find_id(&self.entries, &key) {
            Some(i) => {
                proof {
                    lemma_table_at(self.entries@, i as int);
                }
                Some(&self.entries[i])
            },
            None => None,
        }
    }

    /// The number of entries.
    pub fn len(&self) -> (n: usize)
        ensures
            n == self@.dom().len(),
            n == self.listing().len(),
    {
        proof {
            use_type_invariant(self);
            lemma_table_len(self.entries@);
        }
        self.entries.len()
    }

    /// The entries, in the order in which their ids first came: each entry
    /// of the table once.
    pub fn entries(&self) -> (r: &[ConfigEntry])
        ensures
            r@ == self.listing(),
            ids_distinct(r@),
            forall|i: int| 0 <= i < r@.len() ==> self@.contains_key(#[trigger] r@[i]@.id) && self@[r@[i]@.id] == r@[i]@,
            forall|k: Seq<char>| #[trigger] self@.contains_key(k) ==> exists|i: int| 0 <= i < r@.len() && r@[i]@.id == k,
    {
        proof {
            use_type_invariant(self);
            assert forall|i: int| 0 <= i < self.entries@.len() implies self@.contains_key(#[trigger] self.entries@[i]@.id) && self@[self.entries@[i]@.id] == self.entries@[i]@ by {
                lemma_table_at(self.entries@, i);
            }
        }
        self.entries.as_slice()
    }
}

/// The index of the entry with id `id`, if any.
fn find_id(entries: &Vec<ConfigEntry>, id: &String) -> (r: Option<usize>)
    ensures
        match r {
            Some(i) => i < entries@.len() && entries@[i as int].id@ == id@,
            None => forall|j: int| 0 <= j < entries@.len() ==> #[trigger] entries@[j].id@ != id@,
        },
{
    for i in 0..entries.len()
        invariant
            forall|j: int| 0 <= j < i ==> #[trigger] entries@[j].id@ != id@,
    {
        if entries[i].id == *id {
            return Some(i);
        }
    }
    None
}

proof fn lemma_table_at(es: Seq<ConfigEntry>, i: int)
    requires
        ids_distinct(es),
        0 <= i < es.len(),
    ensures
        table_of(es).contains_key(es[i]@.id),
        table_of(es)[es[i]@.id] == es[i]@,
{
    let k = es[i].id@;
    assert(es[i].id@ == k);
    let j = choose|j: int| 0 <= j < es.len() && #[trigger] es[j].id@ == k;
    assert(j == i);
}

proof fn lemma_table_update(old_es: Seq<ConfigEntry>, es: Seq<ConfigEntry>, i: int)
    requires
        ids_distinct(old_es),
        ids_distinct(es),
        0 <= i < old_es.len(),
        es.len() == old_es.len(),
        es[i].id@ == old_es[i].id@,
        forall|j: int| 0 <= j < es.len() && j != i ==> es[j] == old_es[j],
    ensures
        table_of(es) == table_of(old_es).insert(es[i]@.id, es[i]@),
{
    let t = table_of(es);
    let o = table_of(old_es).insert(es[i]@.id, es[i]@);
    assert forall|k: Seq<char>| t.contains_key(k) == o.contains_key(k) by {
        if t.contains_key(k) {
            let j = choose|j: int| 0 <= j < es.len() && #[trigger] es[j].id@ == k;
            if j != i {
                assert(old_es[j].id@ == k);
            }
        }
        if table_of(old_es).contains_key(k) {
            let j = choose|j: int| 0 <= j < old_es.len() && #[trigger] old_es[j].id@ == k;
            if j != i {
                assert(es[j].id@ == k);
            } else {
                assert(es[i].id@ == k);
            }
        }
        if k == es[i]@.id {
            assert(es[i].id@ == k);
        }
    }
    assert forall|k: Seq<char>| #[trigger] t.contains_key(k) implies t[k] == o[k] by {
        let j = choose|j: int| 0 <= j < es.len() && #[trigger] es[j].id@ == k;
        lemma_table_at(es, j);
        if j != i {
            assert(old_es[j] == es[j]);
            lemma_table_at(old_es, j);
        }
    }
    assert(t =~= o);
}

proof fn lemma_table_push(old_es: Seq<ConfigEntry>, es: Seq<ConfigEntry>)
    requires
        ids_distinct(old_es),
        ids_distinct(es),
        es.len() == old_es.len() + 1,
        forall|j: int| 0 <= j < old_es.len() ==> es[j] == old_es[j],
    ensures
        table_of(es) == table_of(old_es).insert(es.last()@.id, es.last()@),
{
    let n = old_es.len() as int;
    let t = table_of(es);
    let o = table_of(old_es).insert(es[n]@.id, es[n]@);
    assert forall|k: Seq<char>| t.contains_key(k) == o.contains_key(k) by {
        if t.contains_key(k) {
            let j = choose|j: int| 0 <= j < es.len() && #[trigger] es[j].id@ == k;
            if j != n {
                assert(old_es[j].id@ == k);
            }
        }
        if table_of(old_es).contains_key(k) {
            let j = choose|j: int| 0 <= j < old_es.len() && #[trigger] old_es[j].id@ == k;
            assert(es[j].id@ == k);
        }
        if k == es[n]@.id {
            assert(es[n].id@ == k);
        }
    }
    assert forall|k: Seq<char>| #[trigger] t.contains_key(k) implies t[k] == o[k] by {
        let j = choose|j: int| 0 <= j < es.len() && #[trigger] es[j].id@ == k;
        lemma_table_at(es, j);
        if j != n {
            assert(old_es[j] == es[j]);
            lemma_table_at(old_es, j);
        }
    }
    assert(t =~= o);
}

proof fn lemma_table_len(es: Seq<ConfigEntry>)
    requires
        ids_distinct(es),
    ensures
        table_of(es).dom().finite(),
        table_of(es).dom().len() == es.len(),
    decreases es.len(),
{
    if es.len() == 0 {
        assert(table_of(es).dom() =~= Set::<Seq<char>>::empty());
    } else {
        let p = es.drop_last();
        assert(ids_distinct(p));
        lemma_table_len(p);
        lemma_table_push(p, es);
        let n = p.len() as int;
        assert(!table_of(p).contains_key(es[n]@.id)) by {
            if table_of(p).contains_key(es[n]@.id) {
                let j = choose|j: int| 0 <= j < p.len() && #[trigger] p[j].id@ == es[n]@.id;
                assert(es[j].id@ == es[n].id@);
            }
        }
        assert(table_of(es).dom() =~= table_of(p).dom().insert(es[n]@.id));
    }
}

/// The configuration table of a list of entries, as read from the
/// configuration file: each entry under its id, a later entry replacing
/// an earlier one with the same id.
pub fn parse_yaml_to_dict(entries: Vec<ConfigEntry>) -> (d: ConfigDict)
    ensures
        d@ == entries_table(entry_views(entries@)),
        entry_views(d.listing()) == listing_of(entry_views(entries@)),
{
    let mut d = ConfigDict::new();
    let mut entries = entries;
    let ghost all = entry_views(entries@);
    let mut rest: Vec<ConfigEntry> = Vec::new();
    // Take the entries from the back, then insert them from the front.
    while entries.len() > 0
        invariant
            entry_views(entries@) + entry_views(rest@).reverse() == all,
        decreases entries.len(),
    {
        let e = entries.pop().unwrap();
        rest.push(e);
        proof {
            assert(entry_views(entries@) + entry_views(rest@).reverse() =~= all);
        }
    }
    assert(entry_views(rest@).reverse() =~= all);
    assert(all.take(0) =~= Seq::<ConfigEntryView>::empty());
    assert(entry_views(d.listing()) =~= Seq::<ConfigEntryView>::empty());
    while rest.len() > 0
        invariant
            d@ == entries_table(all.take(all.len() - rest@.len())),
            entry_views(d.listing()) == listing_of(all.take(all.len() - rest@.len())),
            entry_views(rest@).reverse() == all.skip(all.len() - rest@.len()),
            rest@.len() <= all.len(),
        decreases rest.len(),
    {
        let e = rest.pop().unwrap();
        let ghost k = (all.len() - rest@.len() - 1) as int;
        proof {
            let ev = entry_views(rest@);
            assert(entry_views(rest@.push(e)) =~= ev.push(e@));
            assert(ev.push(e@).reverse() =~= seq![e@] + ev.reverse());
            assert(all.skip(k).skip(1) =~= all.skip(k + 1));
            assert(all.skip(k)[0] == all[k]);
            assert(entry_views(rest@.push(e)).reverse()[0] == e@);
            assert(all.take(k + 1).drop_last() =~= all.take(k));
            assert(all.take(k + 1).last() == e@);
            assert(entry_views(rest@).reverse() =~= all.skip(k + 1));
        }
        d.insert(e);
    }
    assert(all.take(all.len() as int) =~= all);
    d
}

} // verus!
