//! Which versions of which keys the active tier holds.
use super::config::{Key, ShardedStorageConfig, StateVersion, StripeIndex};
use vstd::prelude::*;

verus! {

/// The versions of one key, oldest first.
pub struct KeyVersions {
    pub key: Key,
    pub versions: Vec<StateVersion>,
}

impl View for KeyVersions {
    type V = (Key, Seq<StateVersion>);

    open spec fn view(&self) -> (Key, Seq<StateVersion>) {
        (self.key, self.versions@)
    }
}

/// The keys of a stripe with their versions, in the order of their first
/// write.
pub type Rows = Seq<(Key, Seq<StateVersion>)>;

/// The position of a key, or the number of keys if it is not there.
pub open spec fn position(rows: Rows, key: Key) -> int
    decreases rows.len(),
{
    if rows.len() == 0 || rows[0].0 == key {
        0
    } else {
        1 + position(rows.drop_first(), key)
    }
}

/// The versions of a key.
pub open spec fn versions_of(rows: Rows, key: Key) -> Seq<StateVersion> {
    if position(rows, key) < rows.len() {
        rows[position(rows, key)].1
    } else {
        Seq::empty()
    }
}

/// Adds a version of a key.
pub open spec fn add_version(rows: Rows, key: Key, version: StateVersion) -> Rows {
    let i = position(rows, key);
    if i < rows.len() {
        rows.update(i, (key, rows[i].1.push(version)))
    } else {
        rows.push((key, seq![version]))
    }
}

/// The position of the last version that is not after `version`, or -1.
pub open spec fn latest(versions: Seq<StateVersion>, version: StateVersion) -> int
    decreases versions.len(),
{
    if versions.len() == 0 {
        -1
    } else if versions.last() <= version {
        versions.len() - 1
    } else {
        latest(versions.drop_last(), version)
    }
}

/// The version in effect at `version`.
pub open spec fn in_effect(versions: Seq<StateVersion>, version: StateVersion) -> Option<
    StateVersion,
> {
    if latest(versions, version) >= 0 {
        Some(versions[latest(versions, version)])
    } else {
        None
    }
}

/// The keys with their versions in effect at `version`.
pub open spec fn snapshot_rows(rows: Rows, version: StateVersion) -> Seq<(Key, StateVersion)>
    decreases rows.len(),
{
    if rows.len() == 0 {
        Seq::empty()
    } else {
        let before = snapshot_rows(rows.drop_last(), version);
        match in_effect(rows.last().1, version) {
            Some(found) => before.push((rows.last().0, found)),
            None => before,
        }
    }
}

/// How many versions come before the one in effect at `version`.
pub open spec fn num_outdated(versions: Seq<StateVersion>, version: StateVersion) -> int {
    if latest(versions, version) >= 0 {
        latest(versions, version)
    } else {
        0
    }
}

/// The version in effect at `version` and all later ones.
pub open spec fn kept_versions(versions: Seq<StateVersion>, version: StateVersion) -> Seq<
    StateVersion,
> {
    versions.subrange(num_outdated(versions, version), versions.len() as int)
}

/// The rows without what is outdated at `version`.
pub open spec fn kept_rows(rows: Rows, version: StateVersion) -> Rows {
    rows.map_values(
        |row: (Key, Seq<StateVersion>)| (row.0, kept_versions(row.1, version)),
    )
}

/// What is outdated in one row.
pub open spec fn outdated_versions(
    key: Key,
    versions: Seq<StateVersion>,
    version: StateVersion,
) -> Seq<(Key, StateVersion)> {
    Seq::new(num_outdated(versions, version) as nat, |i: int| (key, versions[i]))
}

/// What is outdated in some rows, in order.
pub open spec fn outdated_rows(rows: Rows, version: StateVersion) -> Seq<(Key, StateVersion)>
    decreases rows.len(),
{
    if rows.len() == 0 {
        Seq::empty()
    } else {
        outdated_rows(rows.drop_last(), version) + outdated_versions(
            rows.last().0,
            rows.last().1,
            version,
        )
    }
}

/// What is outdated in a table, in order.
pub open spec fn outdated(table: Seq<Rows>, version: StateVersion) -> Seq<(Key, StateVersion)>
    decreases table.len(),
{
    if table.len() == 0 {
        Seq::empty()
    } else {
        outdated(table.drop_last(), version) + outdated_rows(table.last(), version)
    }
}

/// A table without what is outdated.
pub open spec fn kept(table: Seq<Rows>, version: StateVersion) -> Seq<Rows> {
    table.map_values(|rows: Rows| kept_rows(rows, version))
}

pub(crate) proof fn lemma_position(rows: Rows, key: Key)
    ensures
        0 <= position(rows, key) <= rows.len(),
        forall|i: int| 0 <= i < position(rows, key) ==> (#[trigger] rows[i]).0 != key,
        position(rows, key) < rows.len() ==> rows[position(rows, key)].0 == key,
    decreases rows.len(),
{
    if rows.len() == 0 || rows[0].0 == key {
    } else {
        let rest = rows.drop_first();
        lemma_position(rest, key);
        assert forall|i: int| 0 <= i < position(rows, key) implies (#[trigger] rows[i]).0
            != key by {
            if i > 0 {
                assert(rows[i] == rest[i - 1]);
            }
        }
    }
}

pub(crate) proof fn lemma_latest(versions: Seq<StateVersion>, version: StateVersion)
    ensures
        -1 <= latest(versions, version) < versions.len(),
        latest(versions, version) >= 0 ==> versions[latest(versions, version)] <= version,
        forall|i: int|
            latest(versions, version) < i < versions.len() ==> version < #[trigger] versions[i],
    decreases versions.len(),
{
    if versions.len() == 0 || versions.last() <= version {
    } else {
        lemma_latest(versions.drop_last(), version);
        assert forall|i: int|
            latest(versions, version) < i < versions.len() implies version
            < #[trigger] versions[i] by {
            if i < versions.len() - 1 {
                assert(versions[i] == versions.drop_last()[i]);
            }
        }
    }
}

/// The versions of the keys of every stripe.
pub struct VersionTable {
    stripes: Vec<Vec<KeyVersions>>,
}

impl View for VersionTable {
    type V = Seq<Rows>;

    closed spec fn view(&self) -> Seq<Rows> {
        self.stripes@.map_values(
            |rows: Vec<KeyVersions>| rows@.map_values(|row: KeyVersions| row@),
        )
    }
}

/// The position of the last version that is not after `version`, counted from
/// one; zero if there is none.
fn latest_position(versions: &Vec<StateVersion>, version: StateVersion) -> (count: usize)
    ensures
        count == latest(versions@, version) + 1,
{
    let mut count: usize = versions.len();
    assert(versions@.subrange(0, count as int) =~= versions@);
    while count > 0 && versions[count - 1] > version
        invariant
            count <= versions@.len(),
            latest(versions@, version) == latest(versions@.subrange(0, count as int), version),
        decreases count,
    {
        assert(versions@.subrange(0, count as int).drop_last() =~= versions@.subrange(
            0,
            count - 1,
        ));
        count -= 1;
    }
    count
}

/// Takes what is outdated out of one row.
fn collect_row(
    row: &mut KeyVersions,
    version: StateVersion,
    collected: &mut Vec<(Key, StateVersion)>,
)
    ensures
        final(row)@ == (old(row)@.0, kept_versions(old(row)@.1, version)),
        final(collected)@ == old(collected)@ + outdated_versions(
            old(row)@.0,
            old(row)@.1,
            version,
        ),
{
    // everything before the highest version that is not after `version` is
    // outdated; that version itself may be lower than `version`, but is needed
    // to serve a later read at `version`, so that reads never have to fall back
    // to the archive tier
    let count: usize = latest_position(&row.versions, version);
    proof {
        lemma_latest(row.versions@, version);
    }
    if count == 0 {
        assert(kept_versions(row.versions@, version) =~= row.versions@);
        assert(collected@ =~= old(collected)@ + outdated_versions(
            row.key,
            row.versions@,
            version,
        ));
        return;
    }
    let active: usize = count - 1;
    let mut kept = row.versions.split_off(active);
    std::mem::swap(&mut kept, &mut row.versions);
    let mut i: usize = 0;
    while i < kept.len()
        invariant
            i <= kept@.len(),
            row.key == old(row).key,
            kept@ == old(row).versions@.subrange(0, active as int),
            collected@ == old(collected)@ + outdated_versions(
                old(row)@.0,
                old(row)@.1,
                version,
            ).subrange(0, i as int),
            active == num_outdated(old(row)@.1, version),
            active <= old(row)@.1.len(),
        decreases kept@.len() - i,
    {
        collected.push((row.key, kept[i]));
        i += 1;
        assert(outdated_versions(old(row)@.0, old(row)@.1, version).subrange(0, i as int)
            =~= outdated_versions(old(row)@.0, old(row)@.1, version).subrange(0, i - 1).push(
            outdated_versions(old(row)@.0, old(row)@.1, version)[i - 1],
        ));
    }
    assert(outdated_versions(old(row)@.0, old(row)@.1, version).subrange(0, i as int)
        =~= outdated_versions(old(row)@.0, old(row)@.1, version));
}

/// Takes what is outdated out of some rows.
fn collect_rows(
    rows: &mut Vec<KeyVersions>,
    version: StateVersion,
    collected: &mut Vec<(Key, StateVersion)>,
)
    ensures
        final(rows)@.map_values(|row: KeyVersions| row@) == kept_rows(
            old(rows)@.map_values(|row: KeyVersions| row@),
            version,
        ),
        final(collected)@ == old(collected)@ + outdated_rows(
            old(rows)@.map_values(|row: KeyVersions| row@),
            version,
        ),
{
    let ghost before = rows@.map_values(|row: KeyVersions| row@);
    let mut i: usize = 0;
    assert(collected@ =~= old(collected)@ + outdated_rows(before.subrange(0, 0), version));
    while i < rows.len()
        invariant
            i <= rows@.len(),
            before.len() == rows@.len(),
            before == old(rows)@.map_values(|row: KeyVersions| row@),
            forall|j: int|
                0 <= j < i ==> (#[trigger] rows@[j])@ == (
                    before[j].0,
                    kept_versions(before[j].1, version),
                ),
            forall|j: int| i <= j < rows@.len() ==> (#[trigger] rows@[j])@ == before[j],
            collected@ == old(collected)@ + outdated_rows(
                before.subrange(0, i as int),
                version,
            ),
        decreases rows@.len() - i,
    {
        collect_row(&mut rows[i], version, collected);
        i += 1;
        assert(before.subrange(0, i as int).drop_last() =~= before.subrange(0, i - 1));
        assert(old(collected)@ + outdated_rows(before.subrange(0, i - 1), version)
            + outdated_versions(before[i - 1].0, before[i - 1].1, version) =~= old(collected)@
            + outdated_rows(before.subrange(0, i as int), version));
    }
    assert(before.subrange(0, i as int) =~= before);
    assert(rows@.map_values(|row: KeyVersions| row@) =~= kept_rows(before, version));
}

/// The position of a key in a stripe.
fn find_row(rows: &Vec<KeyVersions>, key: &Key) -> (i: usize)
    ensures
        i == position(rows@.map_values(|row: KeyVersions| row@), *key),
        i <= rows@.len(),
{
    let ghost view = rows@.map_values(|row: KeyVersions| row@);
    let mut i: usize = 0;
    assert(view.subrange(0, view.len() as int) =~= view);
    while i < rows.len()
        invariant
            i <= rows@.len(),
            view == rows@.map_values(|row: KeyVersions| row@),
            position(view, *key) == i + position(
                view.subrange(i as int, view.len() as int),
                *key,
            ),
        decreases rows@.len() - i,
    {
        let ghost rest = view.subrange(i as int, view.len() as int);
        assert(rest[0] == rows@[i as int]@);
        if rows[i].key.same(key) {
            return i;
        }
        assert(rest.drop_first() =~= view.subrange(i + 1, view.len() as int));
        i += 1;
    }
    i
}

impl VersionTable {
    /// A table without keys.
    pub fn new(num_stripe: StripeIndex) -> (table: Self)
        ensures
            table@ == Seq::new(num_stripe as nat, |i: int| Rows::empty()),
    {
        let mut stripes: Vec<Vec<KeyVersions>> = Vec::new();
        let mut i: StripeIndex = 0;
        while i < num_stripe
            invariant
                i <= num_stripe,
                stripes@.len() == i,
                forall|j: int| 0 <= j < i ==> (#[trigger] stripes@[j])@.len() == 0,
            decreases num_stripe - i,
        {
            stripes.push(Vec::new());
            i += 1;
        }
        let table = VersionTable { stripes };
        proof {
            let expected = Seq::new(num_stripe as nat, |i: int| Rows::empty());
            assert forall|j: int| 0 <= j < num_stripe implies #[trigger] table@[j]
                == expected[j] by {
                assert(table@[j] =~= Rows::empty());
            }
            assert(table@ =~= expected);
        }
        table
    }

    /// Records that a key was written at a version.
    pub fn add(&mut self, key: Key, version: StateVersion, config: &ShardedStorageConfig)
        requires
            config.wf(),
            old(self)@.len() == config.num_stripe,
        ensures
            ({
                let stripe = config.stripe_of_spec(key) as int;
                final(self)@ == old(self)@.update(
                    stripe,
                    add_version(old(self)@[stripe], key, version),
                )
            }),
    {
        let stripe: usize = config.stripe_of(&key) as usize;
        let i: usize = find_row(&self.stripes[stripe], &key);
        let ghost rows = self@[stripe as int];
        proof {
            lemma_position(rows, key);
        }
        if i < self.stripes[stripe].len() {
            self.stripes[stripe][i].versions.push(version);
        } else {
            let mut versions: Vec<StateVersion> = Vec::new();
            versions.push(version);
            self.stripes[stripe].push(KeyVersions { key, versions });
            assert(versions@ =~= seq![version]);
        }
        proof {
            assert(self@[stripe as int] =~= add_version(rows, key, version));
            assert(self@ =~= old(self)@.update(
                stripe as int,
                add_version(rows, key, version),
            ));
        }
    }

    /// The version of a key in effect at a version.
    pub fn find(
        &self,
        key: &Key,
        version: StateVersion,
        config: &ShardedStorageConfig,
    ) -> (found: Option<StateVersion>)
        requires
            config.wf(),
            self@.len() == config.num_stripe,
        ensures
            found == in_effect(
                versions_of(self@[config.stripe_of_spec(*key) as int], *key),
                version,
            ),
    {
        let stripe: usize = config.stripe_of(key) as usize;
        let i: usize = find_row(&self.stripes[stripe], key);
        let ghost rows = self@[stripe as int];
        if i >= self.stripes[stripe].len() {
            assert(versions_of(rows, *key) =~= Seq::empty());
            return None;
        }
        let row = &self.stripes[stripe][i];
        assert(rows[i as int] == row@);
        let count: usize = latest_position(&row.versions, version);
        proof {
            lemma_latest(row.versions@, version);
        }
        if count == 0 {
            None
        } else {
            Some(row.versions[count - 1])
        }
    }

    /// The keys of a stripe with their versions in effect at a version.
    pub fn snapshot(&self, stripe_index: StripeIndex, version: StateVersion) -> (snapshot: Vec<
        (Key, StateVersion),
    >)
        requires
            stripe_index < self@.len(),
        ensures
            snapshot@ == snapshot_rows(self@[stripe_index as int], version),
    {
        let rows = &self.stripes[stripe_index as usize];
        let ghost view = self@[stripe_index as int];
        let mut snapshot: Vec<(Key, StateVersion)> = Vec::new();
        let mut i: usize = 0;
        while i < rows.len()
            invariant
                i <= rows@.len(),
                view == rows@.map_values(|row: KeyVersions| row@),
                snapshot@ == snapshot_rows(view.subrange(0, i as int), version),
            decreases rows@.len() - i,
        {
            let row = &rows[i];
            let count: usize = latest_position(&row.versions, version);
            proof {
                lemma_latest(row.versions@, version);
                assert(view.subrange(0, i + 1).drop_last() =~= view.subrange(0, i as int));
                assert(view.subrange(0, i + 1).last() == row@);
            }
            if count > 0 {
                snapshot.push((row.key, row.versions[count - 1]));
            }
            i += 1;
        }
        assert(view.subrange(0, i as int) =~= view);
        snapshot
    }

    /// Forgets what is outdated at a version, and hands it out. What is in
    /// effect at that version stays.
    pub fn collect(&mut self, version: StateVersion) -> (collected: Vec<(Key, StateVersion)>)
        ensures
            final(self)@ == kept(old(self)@, version),
            collected@ == outdated(old(self)@, version),
    {
        let ghost before = self@;
        let mut collected: Vec<(Key, StateVersion)> = Vec::new();
        let mut i: usize = 0;
        assert(collected@ =~= outdated(before.subrange(0, 0), version));
        while i < self.stripes.len()
            invariant
                i <= self.stripes@.len(),
                before.len() == self.stripes@.len(),
                forall|j: int| 0 <= j < i ==> #[trigger] self@[j] == kept_rows(before[j], version),
                forall|j: int| i <= j < before.len() ==> #[trigger] self@[j] == before[j],
                collected@ == outdated(before.subrange(0, i as int), version),
            decreases self.stripes@.len() - i,
        {
            let ghost this = self@;
            assert(this[i as int] == before[i as int]);
            collect_rows(&mut self.stripes[i], version, &mut collected);
            assert(self@[i as int] == kept_rows(before[i as int], version));
            assert forall|j: int| 0 <= j < before.len() && j != i implies #[trigger] self@[j]
                == this[j] by {}
            i += 1;
            assert(before.subrange(0, i as int).drop_last() =~= before.subrange(0, i - 1));
        }
        assert(before.subrange(0, i as int) =~= before);
        assert(self@ =~= kept(before, version));
        collected
    }
}

} // verus!
