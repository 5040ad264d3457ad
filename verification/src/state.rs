//! The installed-state store: the record of what is currently installed, by
//! which repository and version, and which binary files resulted. The store
//! behaves as a mapping from package name to record: insert overwrites,
//! remove drops, and a name occurs at most once when the store is well formed.

use vstd::prelude::*;

verus! {

/// One installed package: the repository it came from, the version installed,
/// and the absolute paths of the binaries that were placed in the store.
pub struct InstalledRecord {
    pub repo: String,
    pub version: String,
    pub binaries: Vec<String>,
}

pub struct InstalledRecordView {
    pub repo: Seq<char>,
    pub version: Seq<char>,
    pub binaries: Seq<Seq<char>>,
}

impl View for InstalledRecord {
    type V = InstalledRecordView;

    open spec fn view(&self) -> InstalledRecordView {
        InstalledRecordView {
            repo: self.repo@,
            version: self.version@,
            binaries: self.binaries.deep_view(),
        }
    }
}

impl DeepView for InstalledRecord {
    type V = InstalledRecordView;

    open spec fn deep_view(&self) -> InstalledRecordView {
        self.view()
    }
}

/// A package name with its installed record.
pub struct InstalledEntry {
    pub name: String,
    pub record: InstalledRecord,
}

pub struct InstalledEntryView {
    pub name: Seq<char>,
    pub record: InstalledRecordView,
}

impl View for InstalledEntry {
    type V = InstalledEntryView;

    open spec fn view(&self) -> InstalledEntryView {
        InstalledEntryView { name: self.name@, record: self.record@ }
    }
}

impl DeepView for InstalledEntry {
    type V = InstalledEntryView;

    open spec fn deep_view(&self) -> InstalledEntryView {
        self.view()
    }
}

/// The record installed under `name`, or `None`.
pub open spec fn db_lookup(db: Seq<InstalledEntryView>, name: Seq<char>) -> Option<
    InstalledRecordView,
>
    decreases db.len(),
{
    if db.len() == 0 {
        None
    } else if db[0].name == name {
        Some(db[0].record)
    } else {
        db_lookup(db.drop_first(), name)
    }
}

/// Whether some record is installed under `name`.
pub open spec fn db_contains(db: Seq<InstalledEntryView>, name: Seq<char>) -> bool {
    db_lookup(db, name) is Some
}

/// The store after installing `record` under `name`: the existing entry is
/// overwritten in place, or a new entry is appended.
pub open spec fn db_insert(
    db: Seq<InstalledEntryView>,
    name: Seq<char>,
    record: InstalledRecordView,
) -> Seq<InstalledEntryView>
    decreases db.len(),
{
    if db.len() == 0 {
        seq![InstalledEntryView { name, record }]
    } else if db[0].name == name {
        seq![InstalledEntryView { name, record }] + db.drop_first()
    } else {
        seq![db[0]] + db_insert(db.drop_first(), name, record)
    }
}

/// The store after dropping the entry under `name`, if there was one.
pub open spec fn db_remove(db: Seq<InstalledEntryView>, name: Seq<char>) -> Seq<
    InstalledEntryView,
>
    decreases db.len(),
{
    if db.len() == 0 {
        db
    } else if db[0].name == name {
        db.drop_first()
    } else {
        seq![db[0]] + db_remove(db.drop_first(), name)
    }
}

/// Each package name occurs at most once.
pub open spec fn db_unique_names(db: Seq<InstalledEntryView>) -> bool {
    forall|i: int, j: int| 0 <= i < j < db.len() ==> db[i].name != db[j].name
}

proof fn lemma_db_lookup_index(db: Seq<InstalledEntryView>, name: Seq<char>, i: int)
    requires
        0 <= i < db.len(),
        db[i].name == name,
        forall|j: int| 0 <= j < i ==> db[j].name != name,
    ensures
        db_lookup(db, name) == Some(db[i].record),
    decreases db.len(),
{
    if i > 0 {
        assert(forall|j: int|
            0 <= j < i - 1 ==> db.drop_first()[j] == db[j + 1] && db[j + 1].name != name);
        lemma_db_lookup_index(db.drop_first(), name, i - 1);
    }
}

proof fn lemma_db_lookup_none(db: Seq<InstalledEntryView>, name: Seq<char>)
    requires
        forall|j: int| 0 <= j < db.len() ==> db[j].name != name,
    ensures
        db_lookup(db, name) is None,
    decreases db.len(),
{
    if db.len() > 0 {
        assert(forall|j: int|
            0 <= j < db.len() - 1 ==> db.drop_first()[j] == db[j + 1] && db[j + 1].name != name);
        lemma_db_lookup_none(db.drop_first(), name);
    }
}

proof fn lemma_db_insert_index(
    db: Seq<InstalledEntryView>,
    name: Seq<char>,
    record: InstalledRecordView,
    i: int,
)
    requires
        0 <= i < db.len(),
        db[i].name == name,
        forall|j: int| 0 <= j < i ==> db[j].name != name,
    ensures
        db_insert(db, name, record) == db.update(i, InstalledEntryView { name, record }),
    decreases db.len(),
{
    if i == 0 {
        assert(seq![InstalledEntryView { name, record }] + db.drop_first() =~= db.update(
            0,
            InstalledEntryView { name, record },
        ));
    } else {
        assert(forall|j: int|
            0 <= j < i - 1 ==> db.drop_first()[j] == db[j + 1] && db[j + 1].name != name);
        lemma_db_insert_index(db.drop_first(), name, record, i - 1);
        assert(seq![db[0]] + db.drop_first().update(i - 1, InstalledEntryView { name, record })
            =~= db.update(i, InstalledEntryView { name, record }));
    }
}

proof fn lemma_db_insert_absent(
    db: Seq<InstalledEntryView>,
    name: Seq<char>,
    record: InstalledRecordView,
)
    requires
        forall|j: int| 0 <= j < db.len() ==> db[j].name != name,
    ensures
        db_insert(db, name, record) == db.push(InstalledEntryView { name, record }),
    decreases db.len(),
{
    if db.len() == 0 {
        assert(seq![InstalledEntryView { name, record }] =~= db.push(
            InstalledEntryView { name, record },
        ));
    } else {
        assert(forall|j: int|
            0 <= j < db.len() - 1 ==> db.drop_first()[j] == db[j + 1] && db[j + 1].name != name);
        lemma_db_insert_absent(db.drop_first(), name, record);
        assert(seq![db[0]] + db.drop_first().push(InstalledEntryView { name, record }) =~= db.push(
            InstalledEntryView { name, record },
        ));
    }
}

proof fn lemma_db_remove_index(db: Seq<InstalledEntryView>, name: Seq<char>, i: int)
    requires
        0 <= i < db.len(),
        db[i].name == name,
        forall|j: int| 0 <= j < i ==> db[j].name != name,
    ensures
        db_remove(db, name) == db.remove(i),
    decreases db.len(),
{
    if i == 0 {
        assert(db.drop_first() =~= db.remove(0));
    } else {
        assert(forall|j: int|
            0 <= j < i - 1 ==> db.drop_first()[j] == db[j + 1] && db[j + 1].name != name);
        lemma_db_remove_index(db.drop_first(), name, i - 1);
        assert(seq![db[0]] + db.drop_first().remove(i - 1) =~= db.remove(i));
    }
}

proof fn lemma_db_remove_absent(db: Seq<InstalledEntryView>, name: Seq<char>)
    requires
        forall|j: int| 0 <= j < db.len() ==> db[j].name != name,
    ensures
        db_remove(db, name) == db,
    decreases db.len(),
{
    if db.len() > 0 {
        assert(forall|j: int|
            0 <= j < db.len() - 1 ==> db.drop_first()[j] == db[j + 1] && db[j + 1].name != name);
        lemma_db_remove_absent(db.drop_first(), name);
        assert(seq![db[0]] + db.drop_first() =~= db);
    }
}

/// Inserting keeps names unique, and overwrites rather than duplicates: the
/// inserted name maps to the new record and every other name is untouched.
pub proof fn lemma_db_insert_semantics(
    db: Seq<InstalledEntryView>,
    name: Seq<char>,
    record: InstalledRecordView,
)
    ensures
        db_lookup(db_insert(db, name, record), name) == Some(record),
        forall|other: Seq<char>|
            other != name ==> db_lookup(db_insert(db, name, record), other) == db_lookup(
                db,
                other,
            ),
        db_unique_names(db) ==> db_unique_names(db_insert(db, name, record)),
    decreases db.len(),
{
    let out = db_insert(db, name, record);
    if db.len() == 0 {
        assert forall|other: Seq<char>| other != name implies db_lookup(out, other) == db_lookup(
            db,
            other,
        ) by {
            assert(out.drop_first() =~= Seq::<InstalledEntryView>::empty());
            assert(db_lookup(out.drop_first(), other) is None);
        }
    } else if db[0].name == name {
        assert(out.drop_first() =~= db.drop_first());
        assert forall|other: Seq<char>| other != name implies db_lookup(out, other) == db_lookup(
            db,
            other,
        ) by {
            assert(db_lookup(out, other) == db_lookup(out.drop_first(), other));
            assert(db_lookup(db, other) == db_lookup(db.drop_first(), other));
        }
    } else {
        lemma_db_insert_semantics(db.drop_first(), name, record);
        assert(out[0] == db[0]);
        assert(out.drop_first() =~= db_insert(db.drop_first(), name, record));
        assert forall|other: Seq<char>| other != name implies db_lookup(out, other) == db_lookup(
            db,
            other,
        ) by {
            if db[0].name != other {
                assert(db_lookup(out, other) == db_lookup(out.drop_first(), other));
                assert(db_lookup(db, other) == db_lookup(db.drop_first(), other));
            }
        }
        assert(db_lookup(out, name) == db_lookup(out.drop_first(), name));
        assert(db_unique_names(db) ==> db_unique_names(out)) by {
            if db_unique_names(db) {
                assert(forall|i: int, j: int|
                    0 <= i < j < db.drop_first().len() ==> db.drop_first()[i].name
                        != db.drop_first()[j].name);
                lemma_db_insert_names(db.drop_first(), name, record);
                assert forall|i: int, j: int| 0 <= i < j < out.len() implies out[i].name
                    != out[j].name by {
                    if i == 0 {
                        let inner = db_insert(db.drop_first(), name, record);
                        assert(out[j] == inner[j - 1]);
                    }
                }
            }
        }
    }
}

/// Every name in the inserted store is either the inserted name or one the
/// store already had.
pub proof fn lemma_db_insert_names(
    db: Seq<InstalledEntryView>,
    name: Seq<char>,
    record: InstalledRecordView,
)
    ensures
        forall|k: int|
            0 <= k < db_insert(db, name, record).len() ==> db_insert(db, name, record)[k].name
                == name || exists|j: int| 0 <= j < db.len() && db[j].name == #[trigger] db_insert(
                db,
                name,
                record,
            )[k].name,
    decreases db.len(),
{
    if db.len() == 0 {
    } else if db[0].name == name {
        let out = db_insert(db, name, record);
        assert forall|k: int| 0 <= k < out.len() implies out[k].name == name || exists|j: int|
            0 <= j < db.len() && db[j].name == out[k].name by {
            if k > 0 {
                assert(out[k] == db[k]);
            }
        }
    } else {
        lemma_db_insert_names(db.drop_first(), name, record);
        let out = db_insert(db, name, record);
        let inner = db_insert(db.drop_first(), name, record);
        assert forall|k: int| 0 <= k < out.len() implies out[k].name == name || exists|j: int|
            0 <= j < db.len() && db[j].name == out[k].name by {
            if k == 0 {
                assert(db[0].name == out[0].name);
            } else {
                assert(out[k] == inner[k - 1]);
                if inner[k - 1].name != name {
                    let j = choose|j: int|
                        0 <= j < db.drop_first().len() && db.drop_first()[j].name == inner[k
                            - 1].name;
                    assert(db[j + 1].name == out[k].name);
                }
            }
        }
    }
}

/// Every entry of the store after a removal is an entry the store already
/// had.
proof fn lemma_db_remove_names(db: Seq<InstalledEntryView>, name: Seq<char>)
    ensures
        forall|k: int|
            0 <= k < db_remove(db, name).len() ==> exists|j: int|
                0 <= j < db.len() && db[j] == #[trigger] db_remove(db, name)[k],
    decreases db.len(),
{
    let out = db_remove(db, name);
    if db.len() == 0 {
    } else if db[0].name == name {
        assert forall|k: int| 0 <= k < out.len() implies exists|j: int|
            0 <= j < db.len() && db[j] == #[trigger] out[k] by {
            assert(db[k + 1] == out[k]);
        }
    } else {
        lemma_db_remove_names(db.drop_first(), name);
        let inner = db_remove(db.drop_first(), name);
        assert(out.drop_first() =~= inner);
        assert forall|k: int| 0 <= k < out.len() implies exists|j: int|
            0 <= j < db.len() && db[j] == #[trigger] out[k] by {
            if k == 0 {
                assert(db[0] == out[0]);
            } else {
                assert(out[k] == inner[k - 1]);
                let j = choose|j: int|
                    0 <= j < db.drop_first().len() && db.drop_first()[j] == inner[k - 1];
                assert(db[j + 1] == out[k]);
            }
        }
    }
}

/// Removing drops exactly the named entry: the name is no longer installed,
/// every other name is untouched, and names stay unique.
pub proof fn lemma_db_remove_semantics(db: Seq<InstalledEntryView>, name: Seq<char>)
    requires
        db_unique_names(db),
    ensures
        db_lookup(db_remove(db, name), name) is None,
        forall|other: Seq<char>|
            other != name ==> db_lookup(db_remove(db, name), other) == db_lookup(db, other),
        db_unique_names(db_remove(db, name)),
    decreases db.len(),
{
    let out = db_remove(db, name);
    if db.len() == 0 {
    } else if db[0].name == name {
        assert(forall|j: int| 0 <= j < db.drop_first().len() ==> db.drop_first()[j] == db[j + 1]);
        lemma_db_lookup_none(db.drop_first(), name);
        assert forall|other: Seq<char>| other != name implies db_lookup(out, other) == db_lookup(
            db,
            other,
        ) by {
            assert(db_lookup(db, other) == db_lookup(db.drop_first(), other));
        }
    } else {
        assert(forall|j: int| 0 <= j < db.drop_first().len() ==> db.drop_first()[j] == db[j + 1]);
        lemma_db_remove_semantics(db.drop_first(), name);
        lemma_db_remove_names(db.drop_first(), name);
        let inner = db_remove(db.drop_first(), name);
        assert(out[0] == db[0]);
        assert(out.drop_first() =~= inner);
        assert(db_lookup(out, name) == db_lookup(inner, name));
        assert forall|other: Seq<char>| other != name implies db_lookup(out, other) == db_lookup(
            db,
            other,
        ) by {
            if db[0].name != other {
                assert(db_lookup(out, other) == db_lookup(inner, other));
                assert(db_lookup(db, other) == db_lookup(db.drop_first(), other));
            }
        }
        assert forall|i: int, j: int| 0 <= i < j < out.len() implies out[i].name
            != out[j].name by {
            if i == 0 {
                assert(out[j] == inner[j - 1]);
                let k = choose|k: int|
                    0 <= k < db.drop_first().len() && db.drop_first()[k] == inner[j - 1];
                assert(db[k + 1] == out[j]);
            }
        }
    }
}

/// Inserting the same record twice is the same as inserting it once.
pub proof fn lemma_db_insert_twice(
    db: Seq<InstalledEntryView>,
    name: Seq<char>,
    record: InstalledRecordView,
)
    ensures
        db_insert(db_insert(db, name, record), name, record) == db_insert(db, name, record),
    decreases db.len(),
{
    let once = db_insert(db, name, record);
    if db.len() == 0 {
        assert(db_insert(once, name, record) =~= once);
    } else if db[0].name == name {
        assert(once[0].name == name);
        assert(once.drop_first() =~= db.drop_first());
        assert(db_insert(once, name, record) =~= once);
    } else {
        lemma_db_insert_twice(db.drop_first(), name, record);
        assert(once[0] == db[0]);
        assert(once.drop_first() =~= db_insert(db.drop_first(), name, record));
        assert(db_insert(once, name, record) =~= seq![once[0]] + db_insert(
            once.drop_first(),
            name,
            record,
        ));
        assert(db_insert(once, name, record) =~= once);
    }
}

/// The installed-state store: package name to installed record, insertion
/// order kept.
pub struct InstalledDb {
    entries: Vec<InstalledEntry>,
}

impl View for InstalledDb {
    type V = Seq<InstalledEntryView>;

    closed spec fn view(&self) -> Seq<InstalledEntryView> {
        self.entries.deep_view()
    }
}

impl InstalledDb {
    /// An empty store: nothing installed.
    pub fn new() -> (r: InstalledDb)
        ensures
            r@ == Seq::<InstalledEntryView>::empty(),
    {
        let r = InstalledDb { entries: Vec::new() };
        proof {
            assert(r@ =~= Seq::<InstalledEntryView>::empty());
        }
        r
    }

    /// The entries of the store, in order.
    pub fn entries(&self) -> (r: &Vec<InstalledEntry>)
        ensures
            r.deep_view() == self@,
    {
        &self.entries
    }

    /// Whether a record is installed under `name` (any version: the check is
    /// by package name only).
    pub fn contains(&self, name: &str) -> (r: bool)
        ensures
            r == db_contains(self@, name@),
    {
        let n = self.entries.len();
        let mut i: usize = 0;
        while i < n
            invariant
                0 <= i <= n,
                n == self.entries.len(),
                forall|j: int| 0 <= j < i ==> self@[j].name != name@,
            decreases n - i,
        {
            if crate::text::str_eq(self.entries[i].name.as_str(), name) {
                proof {
                    lemma_db_lookup_index(self@, name@, i as int);
                }
                return true;
            }
            i = i + 1;
        }
        proof {
            lemma_db_lookup_none(self@, name@);
        }
        false
    }

    /// The record installed under `name`, if any.
    pub fn get(&self, name: &str) -> (r: Option<&InstalledRecord>)
        ensures
            match r {
                Some(rec) => db_lookup(self@, name@) == Some(rec@),
                None => db_lookup(self@, name@) is None,
            },
    {
        let n = self.entries.len();
        let mut i: usize = 0;
        while i < n
            invariant
                0 <= i <= n,
                n == self.entries.len(),
                forall|j: int| 0 <= j < i ==> self@[j].name != name@,
            decreases n - i,
        {
            if crate::text::str_eq(self.entries[i].name.as_str(), name) {
                proof {
                    lemma_db_lookup_index(self@, name@, i as int);
                }
                return Some(&self.entries[i].record);
            }
            i = i + 1;
        }
        proof {
            lemma_db_lookup_none(self@, name@);
        }
        None
    }

    /// Install `record` under `name`, overwriting any existing entry.
    pub fn insert(&mut self, name: String, record: InstalledRecord)
        ensures
            final(self)@ == db_insert(old(self)@, name@, record@),
    {
        let ghost dv0 = self@;
        let n = self.entries.len();
        let mut i: usize = 0;
        while i < n
            invariant
                0 <= i <= n,
                n == self.entries.len(),
                self@ == dv0,
                dv0 == old(self)@,
                forall|j: int| 0 <= j < i ==> self@[j].name != name@,
            decreases n - i,
        {
            if self.entries[i].name == name {
                let ghost nv = name@;
                let ghost rv = record@;
                let ghost es0 = self.entries@;
                proof {
                    lemma_db_insert_index(dv0, nv, rv, i as int);
                }
                let entry = InstalledEntry { name, record };
                self.entries.remove(i);
                self.entries.insert(i, entry);
                proof {
                    let ev = InstalledEntryView { name: nv, record: rv };
                    assert forall|j: int| 0 <= j < self.entries@.len() implies self@[j]
                        == dv0.update(i as int, ev)[j] by {
                        if j < i as int {
                            assert(self.entries@[j] == es0[j]);
                        } else if j > i as int {
                            assert(self.entries@[j] == es0.remove(i as int)[j - 1]);
                            assert(es0.remove(i as int)[j - 1] == es0[j]);
                        }
                    }
                    assert(self@ =~= dv0.update(i as int, ev));
                }
                return ;
            }
            i = i + 1;
        }
        proof {
            lemma_db_insert_absent(dv0, name@, record@);
        }
        let ghost nv = name@;
        let ghost rv = record@;
        let ghost es0 = self.entries@;
        let entry = InstalledEntry { name, record };
        self.entries.push(entry);
        proof {
            let ev = InstalledEntryView { name: nv, record: rv };
            assert forall|j: int| 0 <= j < self.entries@.len() implies self@[j] == dv0.push(ev)[
                j
            ] by {
                if j < es0.len() {
                    assert(self.entries@[j] == es0[j]);
                }
            }
            assert(self@ =~= dv0.push(ev));
        }
    }

    /// Drop the entry under `name`, returning its record if one was installed.
    pub fn remove(&mut self, name: &str) -> (r: Option<InstalledRecord>)
        ensures
            final(self)@ == db_remove(old(self)@, name@),
            match r {
                Some(rec) => db_lookup(old(self)@, name@) == Some(rec@),
                None => db_lookup(old(self)@, name@) is None,
            },
    {
        let ghost dv0 = self@;
        let n = self.entries.len();
        let mut i: usize = 0;
        while i < n
            invariant
                0 <= i <= n,
                n == self.entries.len(),
                self@ == dv0,
                dv0 == old(self)@,
                forall|j: int| 0 <= j < i ==> self@[j].name != name@,
            decreases n - i,
        {
            if crate::text::str_eq(self.entries[i].name.as_str(), name) {
                let ghost es0 = self.entries@;
                proof {
                    lemma_db_lookup_index(dv0, name@, i as int);
                    lemma_db_remove_index(dv0, name@, i as int);
                }
                let entry = self.entries.remove(i);
                proof {
                    assert(entry == es0[i as int]);
                    assert(entry@ == dv0[i as int]);
                    assert forall|j: int| 0 <= j < self.entries@.len() implies self@[j]
                        == dv0.remove(i as int)[j] by {
                        if j < i as int {
                            assert(self.entries@[j] == es0[j]);
                        } else {
                            assert(self.entries@[j] == es0[j + 1]);
                        }
                    }
                    assert(self@ =~= dv0.remove(i as int));
                }
                return Some(entry.record);
            }
            i = i + 1;
        }
        proof {
            lemma_db_lookup_none(dv0, name@);
            lemma_db_remove_absent(dv0, name@);
            assert(self@ =~= dv0);
        }
        None
    }
}

} // verus!
