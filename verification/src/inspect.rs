//! Looking at stored metadata: which records a query means, and how they are shown.
use crate::config::Config;
use crate::key::{reads_as, KeyView, ObjectKey};
use crate::metadata::{BlockMeta, StripeView, StripingInfo};
use crate::order::{arrange, arranged, Ranked};
use crate::text;
use crate::text::{comes_before, decimal, signed_decimal};
use vstd::prelude::*;
use vstd::string::*;

verus! {

/// What the names of all object records begin with.
pub open spec fn record_prefix(redis_key_prefix: Seq<char>) -> Seq<char> {
    redis_key_prefix + "block_meta:"@
}

/// What the names of all object records begin with.
pub fn block_redis_prefix(config: &Config) -> (r: String)
    ensures
        r@ == record_prefix(config.metadata.redis_key_prefix@),
{
    let mut out = config.metadata.redis_key_prefix.clone();
    out.append("block_meta:");
    out
}

/// The name of the record of one object.
pub fn block_redis_key(config: &Config, canonical_key: &str) -> (r: String)
    ensures
        r@ == record_prefix(config.metadata.redis_key_prefix@) + canonical_key@,
{
    let mut out = block_redis_prefix(config);
    out.append(canonical_key);
    out
}

/// Which object to show: by its canonical key, or by namespace and key.
pub struct GetArgs {
    pub key: Option<String>,
    pub namespace: Option<String>,
    pub object_key: Option<String>,
}

/// Why no object is meant.
pub enum SelectorError {
    /// The text is no canonical key.
    UnreadableKey(String),
    /// Neither a canonical key alone nor both parts of a readable one were given.
    Ambiguous,
}

/// The explanation of an ambiguous selector.
pub fn ambiguous_selector() -> (r: String)
    ensures
        r@
            == "provide either --key <canonical-key> or both --namespace <namespace> and --object-key <object-key>"@,
{
    "provide either --key <canonical-key> or both --namespace <namespace> and --object-key <object-key>".to_owned()
}

/// The object that is meant.
pub fn resolve_get_key(args: GetArgs) -> (r: Result<ObjectKey, SelectorError>)
    ensures
        match (args.key, args.namespace, args.object_key) {
            (Some(key), None, None) => match r {
                Ok(k) => reads_as(key@, k@),
                Err(SelectorError::UnreadableKey(text)) => text@ == key@ && forall|k: KeyView|
                    !reads_as(key@, k),
                Err(SelectorError::Ambiguous) => false,
            },
            (None, Some(namespace), Some(object_key)) => r is Ok && r->Ok_0@ == (KeyView {
                namespace: namespace@,
                object_key: object_key@,
            }),
            _ => r is Err && r->Err_0 is Ambiguous,
        },
{
    match (args.key, args.namespace, args.object_key) {
        (Some(key), None, None) => match ObjectKey::from_string_key(key.as_str()) {
            Some(k) => Ok(k),
            None => Err(SelectorError::UnreadableKey(key)),
        },
        (None, Some(namespace), Some(object_key)) => Ok(ObjectKey { namespace, object_key }),
        _ => Err(SelectorError::Ambiguous),
    }
}

/// What the name of a record says.
pub enum RecordName {
    /// It is no object record.
    Foreign,
    /// It should be one, but holds no canonical key.
    Unreadable,
    Object { canonical_key: String, key: ObjectKey },
}

/// Reads the name of a record.
pub fn read_record_name(redis_key: &str, redis_prefix: &str) -> (r: RecordName)
    ensures
        match r {
            RecordName::Foreign => !redis_prefix@.is_prefix_of(redis_key@),
            RecordName::Unreadable => redis_prefix@.is_prefix_of(redis_key@) && forall|k: KeyView|
                !reads_as(redis_key@.skip(redis_prefix@.len() as int), k),
            RecordName::Object { canonical_key, key } => redis_prefix@.is_prefix_of(redis_key@)
                && canonical_key@ == redis_key@.skip(redis_prefix@.len() as int) && reads_as(
                canonical_key@,
                key@,
            ),
        },
{
    if !text::starts_with(redis_key, redis_prefix) {
        return RecordName::Foreign;
    }
    let start: usize = redis_prefix.unicode_len();
    let canonical_key = redis_key.substring_char(start, redis_key.unicode_len()).to_owned();
    proof {
        assert(canonical_key@ =~= redis_key@.skip(redis_prefix@.len() as int));
    }
    match ObjectKey::from_string_key(canonical_key.as_str()) {
        Some(key) => RecordName::Object { canonical_key, key },
        None => RecordName::Unreadable,
    }
}

/// The complaint about a record whose name holds no canonical key.
pub open spec fn unreadable_record(redis_key: Seq<char>) -> Seq<char> {
    "parse Redis metadata key "@ + redis_key
}

fn complain(redis_key: &str) -> (r: String)
    ensures
        r@ == unreadable_record(redis_key@),
{
    let mut out = "parse Redis metadata key ".to_owned();
    out.append(redis_key);
    out
}

/// Whether an object belongs on a list: it is in the namespace, and its key begins as asked.
pub open spec fn is_listed(k: KeyView, namespace: Seq<char>, object_prefix: Seq<char>) -> bool {
    k.namespace == namespace && object_prefix.is_prefix_of(k.object_key)
}

/// Whether the record of that name belongs on a list, and under which keys. A record whose name
/// holds no canonical key is an error.
pub fn select_record(redis_key: &str, redis_prefix: &str, namespace: &str, object_prefix: &str) -> (r:
    Result<Option<(String, ObjectKey)>, String>)
    ensures
        ({
            let rest = redis_key@.skip(redis_prefix@.len() as int);
            match r {
                Ok(Some((canonical_key, key))) => redis_prefix@.is_prefix_of(redis_key@)
                    && canonical_key@ == rest && reads_as(rest, key@) && is_listed(
                    key@,
                    namespace@,
                    object_prefix@,
                ),
                Ok(None) => redis_prefix@.is_prefix_of(redis_key@) ==> exists|k: KeyView|
                    #[trigger] reads_as(rest, k) && !is_listed(k, namespace@, object_prefix@),
                Err(e) => e@ == unreadable_record(redis_key@) && redis_prefix@.is_prefix_of(
                    redis_key@,
                ) && forall|k: KeyView| !reads_as(rest, k),
            }
        }),
{
    match read_record_name(redis_key, redis_prefix) {
        RecordName::Foreign => Ok(None),
        RecordName::Unreadable => Err(complain(redis_key)),
        RecordName::Object { canonical_key, key } => {
            if text::same(key.namespace.as_str(), namespace) && text::starts_with(
                key.object_key.as_str(),
                object_prefix,
            ) {
                Ok(Some((canonical_key, key)))
            } else {
                proof {
                    assert(!is_listed(key@, namespace@, object_prefix@));
                }
                Ok(None)
            }
        },
    }
}

/// One object on a list.
pub struct Entry {
    pub redis_key: String,
    pub canonical_key: String,
    pub object_key: ObjectKey,
    pub metadata: BlockMeta,
}

/// Objects are listed by namespace, then by key.
pub open spec fn key_comes_before(a: KeyView, b: KeyView) -> bool {
    ||| comes_before(a.namespace, b.namespace)
    ||| a.namespace == b.namespace && comes_before(a.object_key, b.object_key)
}

impl Ranked for Entry {
    open spec fn after(&self, other: &Self) -> bool {
        key_comes_before(other.object_key@, self.object_key@)
    }

    fn is_after(&self, other: &Self) -> (r: bool) {
        let mine = &self.object_key;
        let theirs = &other.object_key;
        if text::is_before(theirs.namespace.as_str(), mine.namespace.as_str()) {
            return true;
        }
        text::same(mine.namespace.as_str(), theirs.namespace.as_str()) && text::is_before(
            theirs.object_key.as_str(),
            mine.object_key.as_str(),
        )
    }

    proof fn lemma_rank(a: &Self, b: &Self, c: &Self) {
        let (x, y, z) = (a.object_key@, b.object_key@, c.object_key@);
        text::lemma_text_order_total(x.namespace, y.namespace);
        text::lemma_text_order_total(y.namespace, z.namespace);
        text::lemma_text_order_total(z.namespace, x.namespace);
        text::lemma_text_order_total(x.object_key, y.object_key);
        text::lemma_text_order_total(y.object_key, z.object_key);
        text::lemma_text_order_total(z.object_key, x.object_key);
        if !a.after(b) && !b.after(c) && a.after(c) {
            if comes_before(z.namespace, x.namespace) {
                if comes_before(x.namespace, y.namespace) {
                    text::lemma_text_order_transitive(z.namespace, x.namespace, y.namespace);
                }
            } else {
                if comes_before(x.namespace, y.namespace) {
                } else if comes_before(x.object_key, y.object_key) {
                    text::lemma_text_order_transitive(z.object_key, x.object_key, y.object_key);
                }
            }
        }
    }
}

/// Puts the objects found in the order in which they are listed, and keeps the first `limit`.
pub fn list_entries(entries: Vec<Entry>, limit: Option<usize>) -> (r: Vec<Entry>)
    ensures
        ({
            let all = arranged(entries@);
            match limit {
                Some(n) => r@ == (if n < all.len() {
                    all.take(n as int)
                } else {
                    all
                }),
                None => r@ == all,
            }
        }),
{
    let mut out = arrange(entries);
    match limit {
        Some(n) => {
            if n < out.len() {
                out.truncate(n);
            }
        },
        None => {},
    }
    out
}

/// A namespace and the number of objects in it.
pub struct NamespaceSummary {
    pub namespace: String,
    pub object_count: usize,
}

/// The number that a table gives for a namespace; nothing given counts as none.
pub open spec fn count_in(table: Seq<NamespaceSummary>, namespace: Seq<char>) -> nat
    decreases table.len(),
{
    if table.len() == 0 {
        0
    } else if table.last().namespace@ == namespace {
        table.last().object_count as nat
    } else {
        count_in(table.drop_last(), namespace)
    }
}

/// The namespaces of a table are in order, each of them once.
pub open spec fn in_order(table: Seq<NamespaceSummary>) -> bool {
    forall|i: int, j: int| #![trigger table[i], table[j]]
        0 <= i < j < table.len() ==> comes_before(table[i].namespace@, table[j].namespace@)
}

proof fn lemma_count_present(table: Seq<NamespaceSummary>, i: int)
    requires
        in_order(table),
        0 <= i < table.len(),
    ensures
        count_in(table, table[i].namespace@) == table[i].object_count,
    decreases table.len(),
{
    if i < table.len() - 1 {
        let l = table.len() - 1;
        assert(comes_before(table[i].namespace@, table[l].namespace@));
        text::lemma_text_order_total(table[i].namespace@, table[l].namespace@);
        assert(in_order(table.drop_last())) by {
            lemma_front_in_order(table);
        }
        lemma_count_present(table.drop_last(), i);
    }
}

proof fn lemma_front_in_order(table: Seq<NamespaceSummary>)
    requires
        in_order(table),
        table.len() > 0,
    ensures
        in_order(table.drop_last()),
{
    let f = table.drop_last();
    assert forall|i: int, j: int| #![trigger f[i], f[j]] 0 <= i < j < f.len() implies comes_before(
        f[i].namespace@,
        f[j].namespace@,
    ) by {
        assert(comes_before(table[i].namespace@, table[j].namespace@));
    }
}

proof fn lemma_count_absent(table: Seq<NamespaceSummary>, namespace: Seq<char>)
    requires
        forall|i: int| 0 <= i < table.len() ==> (#[trigger] table[i]).namespace@ != namespace,
    ensures
        count_in(table, namespace) == 0,
    decreases table.len(),
{
    if table.len() > 0 {
        assert(table[table.len() - 1].namespace@ != namespace);
        let f = table.drop_last();
        assert forall|i: int| 0 <= i < f.len() implies (#[trigger] f[i]).namespace@ != namespace by {
            assert(table[i].namespace@ != namespace);
        }
        lemma_count_absent(f, namespace);
    }
}

/// A namespace that a table lacks, put in with one object between those before and those after.
proof fn lemma_inserted(table: Seq<NamespaceSummary>, x: NamespaceSummary, at: int)
    requires
        in_order(table),
        0 <= at <= table.len(),
        x.object_count == 1,
        forall|k: int|
            0 <= k < at ==> comes_before((#[trigger] table[k]).namespace@, x.namespace@),
        at < table.len() ==> !comes_before(table[at].namespace@, x.namespace@)
            && table[at].namespace@ != x.namespace@,
    ensures
        in_order(table.insert(at, x)),
        forall|n: Seq<char>| #[trigger]
            count_in(table.insert(at, x), n) == count_in(table, n) + (if n == x.namespace@ {
                1nat
            } else {
                0nat
            }),
{
    let after = table.insert(at, x);
    assert forall|k: int| at <= k < table.len() implies comes_before(
        x.namespace@,
        (#[trigger] table[k]).namespace@,
    ) by {
        text::lemma_text_order_total(table[at].namespace@, x.namespace@);
        if at < k {
            assert(comes_before(table[at].namespace@, table[k].namespace@));
            text::lemma_text_order_transitive(
                x.namespace@,
                table[at].namespace@,
                table[k].namespace@,
            );
        }
    }
    assert forall|a: int, b: int| #![trigger after[a], after[b]] 0 <= a < b
        < after.len() implies comes_before(after[a].namespace@, after[b].namespace@) by {
        let p = if a < at {
            a
        } else {
            a - 1
        };
        let q = if b < at {
            b
        } else {
            b - 1
        };
        if a == at {
            assert(comes_before(x.namespace@, table[q].namespace@));
        } else if b == at {
            assert(comes_before(table[p].namespace@, x.namespace@));
        } else {
            assert(comes_before(table[p].namespace@, table[q].namespace@));
        }
    }
    assert forall|k: int| 0 <= k < table.len() implies (#[trigger] table[k]).namespace@
        != x.namespace@ by {
        text::lemma_text_order_total(x.namespace@, table[k].namespace@);
    }
    assert forall|n: Seq<char>| #[trigger] count_in(after, n) == count_in(table, n) + (if n
        == x.namespace@ {
        1nat
    } else {
        0nat
    }) by {
        if n == x.namespace@ {
            lemma_count_absent(table, n);
            lemma_count_present(after, at);
        } else if exists|k: int| 0 <= k < table.len() && (#[trigger] table[k]).namespace@ == n {
            let k = choose|k: int| 0 <= k < table.len() && (#[trigger] table[k]).namespace@ == n;
            lemma_count_present(table, k);
            let m = if k < at {
                k
            } else {
                k + 1
            };
            assert(after[m] == table[k]);
            lemma_count_present(after, m);
        } else {
            assert forall|m: int| 0 <= m < after.len() implies (#[trigger] after[m]).namespace@
                != n by {
                if m != at {
                    let k = if m < at {
                        m
                    } else {
                        m - 1
                    };
                    assert(after[m] == table[k]);
                }
            }
            lemma_count_absent(table, n);
            lemma_count_absent(after, n);
        }
    }
}

/// Counts the objects of each namespace while the records are gone through.
pub struct NamespaceCounter {
    redis_prefix: String,
    counts: Vec<NamespaceSummary>,
    counted: usize,
}

impl NamespaceCounter {
    /// What the names of the records that are counted begin with.
    pub closed spec fn prefix(&self) -> Seq<char> {
        self.redis_prefix@
    }

    /// The objects counted for a namespace.
    pub closed spec fn count(&self, namespace: Seq<char>) -> nat {
        count_in(self.counts@, namespace)
    }

    /// The objects counted in all.
    pub closed spec fn total(&self) -> nat {
        self.counted as nat
    }

    pub closed spec fn wf(&self) -> bool {
        &&& in_order(self.counts@)
        &&& forall|i: int|
            0 <= i < self.counts.len() ==> 1 <= (#[trigger] self.counts@[i]).object_count
                <= self.counted
    }

    pub fn new(redis_prefix: String) -> (r: NamespaceCounter)
        ensures
            r.wf(),
            r.prefix() == redis_prefix@,
            r.total() == 0,
            forall|n: Seq<char>| #[trigger] r.count(n) == 0,
    {
        NamespaceCounter { redis_prefix, counts: Vec::new(), counted: 0 }
    }

    /// The objects counted in all.
    pub fn counted(&self) -> (r: usize)
        ensures
            r == self.total(),
    {
        self.counted
    }

    /// Takes note of one record. A record that is no object record is passed over; one whose
    /// name holds no canonical key is an error.
    pub fn note(&mut self, redis_key: &str) -> (r: Result<(), String>)
        requires
            old(self).wf(),
            old(self).total() < usize::MAX,
        ensures
            final(self).wf(),
            final(self).prefix() == old(self).prefix(),
            ({
                let rest = redis_key@.skip(old(self).prefix().len() as int);
                match r {
                    Ok(_) => if old(self).prefix().is_prefix_of(redis_key@) {
                        exists|k: KeyView| #[trigger]
                            reads_as(rest, k) && final(self).total() == old(self).total() + 1
                                && forall|n: Seq<char>| #[trigger]
                                final(self).count(n) == old(self).count(n) + (if n == k.namespace {
                                    1nat
                                } else {
                                    0nat
                                })
                    } else {
                        *final(self) == *old(self)
                    },
                    Err(e) => e@ == unreadable_record(redis_key@) && old(
                        self,
                    ).prefix().is_prefix_of(redis_key@) && (forall|k: KeyView| !reads_as(rest, k))
                        && *final(self) == *old(self),
                }
            }),
    {
        let name = read_record_name(redis_key, self.redis_prefix.as_str());
        match name {
            RecordName::Foreign => Ok(()),
            RecordName::Unreadable => Err(complain(redis_key)),
            RecordName::Object { canonical_key, key } => {
                proof {
                    assert(reads_as(canonical_key@, key@));
                }
                self.bump(key.namespace);
                Ok(())
            },
        }
    }

    fn bump(&mut self, namespace: String)
        requires
            old(self).wf(),
            old(self).total() < usize::MAX,
        ensures
            final(self).wf(),
            final(self).prefix() == old(self).prefix(),
            final(self).total() == old(self).total() + 1,
            forall|n: Seq<char>| #[trigger]
                final(self).count(n) == old(self).count(n) + (if n == namespace@ {
                    1nat
                } else {
                    0nat
                }),
    {
        let ghost before = self.counts@;
        let mut i: usize = 0;
        while i < self.counts.len() && text::is_before(
            self.counts[i].namespace.as_str(),
            namespace.as_str(),
        )
            invariant
                i <= self.counts.len(),
                self.counts@ == before,
                *self == *old(self),
                forall|k: int|
                    0 <= k < i ==> comes_before(
                        (#[trigger] before[k]).namespace@,
                        namespace@,
                    ),
            decreases self.counts.len() - i,
        {
            i = i + 1;
        }
        self.counted = self.counted + 1;
        if i < self.counts.len() && text::same(
            self.counts[i].namespace.as_str(),
            namespace.as_str(),
        ) {
            let count: usize = self.counts[i].object_count;
            let entry = NamespaceSummary { namespace, object_count: count + 1 };
            self.counts.set(i, entry);
            proof {
                let after = self.counts@;
                assert(in_order(after)) by {
                    assert forall|a: int, b: int| #![trigger after[a], after[b]] 0 <= a < b
                        < after.len() implies comes_before(
                        after[a].namespace@,
                        after[b].namespace@,
                    ) by {
                        assert(comes_before(before[a].namespace@, before[b].namespace@));
                    }
                }
                assert forall|n: Seq<char>| #[trigger] count_in(after, n) == count_in(before, n)
                    + (if n == namespace@ {
                    1nat
                } else {
                    0nat
                }) by {
                    if n == namespace@ {
                        lemma_count_present(before, i as int);
                        lemma_count_present(after, i as int);
                    } else if exists|k: int| 0 <= k < before.len() && (#[trigger] before[k]).namespace@
                        == n {
                        let k = choose|k: int|
                            0 <= k < before.len() && (#[trigger] before[k]).namespace@ == n;
                        lemma_count_present(before, k);
                        lemma_count_present(after, k);
                    } else {
                        assert forall|k: int| 0 <= k < after.len() implies (
                        #[trigger] after[k]).namespace@ != n by {
                            assert(before[k].namespace@ != n || k == i);
                        }
                        lemma_count_absent(before, n);
                        lemma_count_absent(after, n);
                    }
                }
            }
        } else {
            self.counts.insert(i, NamespaceSummary { namespace, object_count: 1 });
            proof {
                lemma_inserted(before, self.counts@[i as int], i as int);
            }
        }
    }

    /// The namespaces in order, each with the number of its objects.
    pub fn finish(self) -> (r: Vec<NamespaceSummary>)
        requires
            self.wf(),
        ensures
            in_order(r@),
            forall|i: int|
                0 <= i < r.len() ==> (#[trigger] r@[i]).object_count > 0 && r@[i].object_count
                    == self.count(r@[i].namespace@),
            forall|n: Seq<char>| #[trigger]
                self.count(n) > 0 ==> exists|i: int|
                    0 <= i < r.len() && (#[trigger] r@[i]).namespace@ == n,
    {
        proof {
            let t = self.counts@;
            assert forall|i: int| 0 <= i < t.len() implies (#[trigger] t[i]).object_count
                == self.count(t[i].namespace@) by {
                lemma_count_present(t, i);
            }
            assert forall|n: Seq<char>| #[trigger] self.count(n) > 0 implies exists|i: int|
                0 <= i < t.len() && (#[trigger] t[i]).namespace@ == n by {
                if forall|i: int| 0 <= i < t.len() ==> (#[trigger] t[i]).namespace@ != n {
                    lemma_count_absent(t, n);
                }
            }
        }
        self.counts
    }
}

/// Where a stripe is: node and device, or the device of this machine, where anything is known.
pub open spec fn device_text(s: StripeView, index: int) -> Seq<char> {
    if index < s.chunk_locations.len() {
        s.chunk_locations[index].node_id + ":"@ + decimal(
            s.chunk_locations[index].device_id as nat,
        )
    } else if index < s.chunk_devices.len() {
        "local:"@ + decimal(s.chunk_devices[index] as nat)
    } else {
        "<unknown>"@
    }
}

/// Where a stripe is.
pub fn stripe_device(striping: &StripingInfo, index: usize) -> (r: String)
    ensures
        r@ == device_text(striping@, index as int),
{
    if index < striping.chunk_locations.len() {
        let location = &striping.chunk_locations[index];
        let mut out = location.node_id.clone();
        out.append(":");
        text::push_decimal(&mut out, location.device_id as u64);
        out
    } else if index < striping.chunk_devices.len() {
        let mut out = "local:".to_owned();
        text::push_decimal(&mut out, striping.chunk_devices[index] as u64);
        out
    } else {
        "<unknown>".to_owned()
    }
}

/// The checksum of a stripe, or a note that there is none.
pub fn stripe_checksum(striping: &StripingInfo, index: usize) -> (r: String)
    ensures
        r@ == (if index < striping@.chunk_checksums.len()
            && striping@.chunk_checksums[index as int].len() > 0 {
            striping@.chunk_checksums[index as int]
        } else {
            "<missing>"@
        }),
{
    if index < striping.chunk_checksums.len() && striping.chunk_checksums[index].as_str().unicode_len()
        > 0 {
        striping.chunk_checksums[index].clone()
    } else {
        "<missing>".to_owned()
    }
}

/// The number of stripes of an object; none where it is not striped.
pub fn stripe_count(striping: Option<&StripingInfo>) -> (r: usize)
    ensures
        match striping {
            Some(s) => r == s@.chunk_paths.len(),
            None => r == 0,
        },
{
    match striping {
        Some(s) => s.chunk_paths.len(),
        None => 0,
    }
}

/// The number of texts that are not empty.
pub open spec fn filled(s: Seq<Seq<char>>) -> nat {
    s.filter(|c: Seq<char>| c.len() > 0).len()
}

/// How many of the stripes of an object have a checksum, in words.
pub open spec fn checksum_text(striping: Option<StripeView>) -> Seq<char> {
    match striping {
        None => "not-striped"@,
        Some(s) => {
            let stripes = s.chunk_paths.len();
            let checksums = filled(s.chunk_checksums);
            if stripes == 0 {
                "empty-layout"@
            } else {
                (if checksums == stripes {
                    "complete ("@
                } else if checksums == 0 {
                    "missing ("@
                } else {
                    "partial ("@
                }) + decimal(checksums) + "/"@ + decimal(stripes) + ")"@
            }
        },
    }
}

/// How many of the stripes of an object have a checksum.
pub fn checksum_status(striping: Option<&StripingInfo>) -> (r: String)
    ensures
        r@ == checksum_text(
            match striping {
                Some(s) => Some(s@),
                None => None,
            },
        ),
{
    let s = match striping {
        None => {
            return "not-striped".to_owned();
        },
        Some(s) => s,
    };
    let stripes: usize = s.chunk_paths.len();
    if stripes == 0 {
        return "empty-layout".to_owned();
    }
    let mut checksums: usize = 0;
    let mut i: usize = 0;
    let ghost all = s@.chunk_checksums;
    let ghost held = |c: Seq<char>| c.len() > 0;
    while i < s.chunk_checksums.len()
        invariant
            i <= s.chunk_checksums.len(),
            all == s@.chunk_checksums,
            held == (|c: Seq<char>| c.len() > 0),
            checksums == all.take(i as int).filter(held).len(),
            checksums <= i,
        decreases s.chunk_checksums.len() - i,
    {
        proof {
            assert(all.take(i + 1) =~= all.take(i as int).push(all[i as int]));
            all.take(i as int).lemma_filter_push(all[i as int], held);
        }
        if s.chunk_checksums[i].as_str().unicode_len() > 0 {
            checksums = checksums + 1;
        }
        i = i + 1;
    }
    proof {
        assert(all.take(i as int) =~= all);
    }
    let mut out = (if checksums == stripes {
        "complete ("
    } else if checksums == 0 {
        "missing ("
    } else {
        "partial ("
    }).to_owned();
    text::push_decimal(&mut out, checksums as u64);
    out.append("/");
    text::push_decimal(&mut out, stripes as u64);
    out.append(")");
    out
}

/// The unit in which a size is shown.
#[derive(Clone, Copy, PartialEq, Eq, Structural, Debug)]
pub enum ByteUnit {
    GiB,
    MiB,
    B,
}

/// The largest of the three units that a size fills at least once.
pub fn byte_unit(bytes: u64) -> (r: ByteUnit)
    ensures
        r == (if bytes >= 1024 * 1024 * 1024 {
            ByteUnit::GiB
        } else if bytes >= 1024 * 1024 {
            ByteUnit::MiB
        } else {
            ByteUnit::B
        }),
{
    if bytes >= 1024 * 1024 * 1024 {
        ByteUnit::GiB
    } else if bytes >= 1024 * 1024 {
        ByteUnit::MiB
    } else {
        ByteUnit::B
    }
}

/// A text cut to `width` characters, the last three of which are dots where something is
/// missing.
pub open spec fn cut(s: Seq<char>, width: nat) -> Seq<char> {
    if s.len() <= width {
        s
    } else if width <= 3 {
        Seq::new(width, |i: int| '.')
    } else {
        s.take(width - 3) + seq!['.', '.', '.']
    }
}

/// Cuts a text to the width of a column.
pub fn truncate_for_table(value: &str, width: usize) -> (r: String)
    ensures
        r@ == cut(value@, width as nat),
        r@.len() <= width,
{
    proof {
        reveal_strlit("");
        reveal_strlit(".");
        reveal_strlit("..");
        reveal_strlit("...");
    }
    if value.unicode_len() <= width {
        return value.to_owned();
    }
    if width <= 3 {
        let dots = match width {
            0 => "",
            1 => ".",
            2 => "..",
            _ => "...",
        };
        proof {
            assert(dots@ =~= Seq::new(width as nat, |i: int| '.'));
        }
        return dots.to_owned();
    }
    let mut out = value.substring_char(0, width - 3).to_owned();
    out.append("...");
    proof {
        assert(out@ =~= cut(value@, width as nat));
    }
    out
}

/// A text, or a note where it is empty.
pub fn empty_as_unset(value: &str) -> (r: &str)
    ensures
        r@ == (if value@.len() == 0 {
            "<unset>"@
        } else {
            value@
        }),
{
    if value.unicode_len() == 0 {
        "<unset>"
    } else {
        value
    }
}

/// How a point in time is written: date, `T`, time of day, `Z`.
pub const TIMESTAMP_FORMAT: &'static str = "%Y-%m-%dT%H:%M:%SZ";

/// The time `seconds` after the epoch, in UTC and in the given format; nothing where the time is
/// out of range.
pub uninterp spec fn utc_text(seconds: i64, format: Seq<char>) -> Option<Seq<char>>;

/// `chrono::DateTime::<Utc>::from_timestamp` and the rendering of its result by
/// `DateTime::format`: both depend on their arguments alone. Rendering panics on a format that
/// chrono does not know, so only the one format that it is used with is admitted. That the
/// result is empty only for times some 262000 years from now is not stated.
#[verifier::external_body]
fn render_utc(seconds: i64, format: &str) -> (r: Option<String>)
    requires
        format@ == TIMESTAMP_FORMAT@,
    ensures
        match r {
            Some(s) => utc_text(seconds, format@) == Some(s@),
            None => utc_text(seconds, format@) is None,
        },
{
    match chrono::DateTime::<chrono::Utc>::from_timestamp(seconds, 0) {
        Some(time) => Some(time.format(format).to_string()),
        None => None,
    }
}

/// What is shown for a time, given its rendering.
pub open spec fn shown_time(rendered: Option<Seq<char>>, timestamp: i64) -> Seq<char> {
    match rendered {
        Some(s) => s,
        None => "<invalid: "@ + signed_decimal(timestamp as int) + ">"@,
    }
}

/// What is shown for a time, given its rendering: that, or the number itself.
pub fn timestamp_or_number(rendered: Option<String>, timestamp: i64) -> (r: String)
    ensures
        r@ == shown_time(
            match rendered {
                Some(s) => Some(s@),
                None => None,
            },
            timestamp,
        ),
{
    match rendered {
        Some(s) => s,
        None => {
            let mut out = "<invalid: ".to_owned();
            text::push_signed(&mut out, timestamp);
            out.append(">");
            out
        },
    }
}

/// A time for a reader.
pub fn format_timestamp(timestamp: i64) -> (r: String)
    ensures
        r@ == shown_time(utc_text(timestamp, TIMESTAMP_FORMAT@), timestamp),
{
    timestamp_or_number(render_utc(timestamp, TIMESTAMP_FORMAT), timestamp)
}

} // verus!
