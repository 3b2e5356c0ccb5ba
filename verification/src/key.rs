//! Object keys and their canonical text form.
use crate::text::{byte_len, decimal, is_first_index, parse_unsigned};
use crate::text;
use vstd::prelude::*;
use vstd::string::*;

verus! {

/// Name of an object: a namespace and a key inside it.
#[derive(Debug, PartialEq, Eq)]
pub struct ObjectKey {
    pub namespace: String,
    pub object_key: String,
}

/// The two parts of an object key.
#[verifier::ext_equal]
pub struct KeyView {
    pub namespace: Seq<char>,
    pub object_key: Seq<char>,
}

impl View for ObjectKey {
    type V = KeyView;

    open spec fn view(&self) -> KeyView {
        KeyView { namespace: self.namespace@, object_key: self.object_key@ }
    }
}

impl Clone for ObjectKey {
    fn clone(&self) -> (r: Self)
        ensures
            r@ == self@,
    {
        ObjectKey { namespace: self.namespace.clone(), object_key: self.object_key.clone() }
    }
}

/// The canonical form of a key: the byte length of the namespace, a colon, the namespace and
/// the key inside it.
pub open spec fn canonical(k: KeyView) -> Seq<char> {
    decimal(byte_len(k.namespace)) + seq![':'] + k.namespace + k.object_key
}

/// `s` reads as the key `k`: an unsigned decimal number up to the first colon, which counts the
/// bytes of the namespace that follows; the rest is the key inside the namespace.
pub open spec fn reads_as(s: Seq<char>, k: KeyView) -> bool {
    exists|i: int| #[trigger]
        is_first_index(s, ':', i) && parse_unsigned(s.take(i), usize::MAX as nat) == Some(
            byte_len(k.namespace),
        ) && s.skip(i + 1) == k.namespace + k.object_key
}

/// The canonical form of `namespace` and `object_key`.
pub fn canonical_key(namespace: &str, object_key: &str) -> (r: String)
    ensures
        r@ == canonical(KeyView { namespace: namespace@, object_key: object_key@ }),
{
    let mut out = text::decimal_string(text::byte_length(namespace) as u64);
    out.append(":");
    out.append(namespace);
    out.append(object_key);
    proof {
        reveal_strlit(":");
    }
    out
}

impl ObjectKey {
    pub fn new(namespace: String, object_key: String) -> (r: ObjectKey)
        ensures
            r@ == (KeyView { namespace: namespace@, object_key: object_key@ }),
    {
        ObjectKey { namespace, object_key }
    }

    /// The canonical form of the key.
    pub fn to_string_key(&self) -> (r: String)
        ensures
            r@ == canonical(self@),
    {
        canonical_key(self.namespace.as_str(), self.object_key.as_str())
    }

    /// Reads a key back from its canonical form.
    pub fn from_string_key(s: &str) -> (r: Option<ObjectKey>)
        ensures
            match r {
                Some(k) => reads_as(s@, k@),
                None => forall|k: KeyView| !reads_as(s@, k),
            },
    {
        let len: usize = s.unicode_len();
        let i: usize = match text::find_char(s, ':') {
            Some(i) => i,
            None => {
                return None;
            },
        };
        let n: usize = match text::parse_usize(s.substring_char(0, i)) {
            Some(n) => n,
            None => {
                proof {
                    assert(s@.subrange(0, i as int) =~= s@.take(i as int));
                    lemma_first_index_unique(s@, i as int);
                }
                return None;
            },
        };
        let rest = s.substring_char(i + 1, len);
        proof {
            assert(s@.subrange(0, i as int) =~= s@.take(i as int));
            assert(rest@ =~= s@.skip(i + 1));
            lemma_first_index_unique(s@, i as int);
        }
        let m: usize = match text::chars_in_bytes(rest, n) {
            Some(m) => m,
            None => {
                proof {
                    assert forall|k: KeyView| !reads_as(s@, k) by {
                        if reads_as(s@, k) {
                            assert(k.namespace + k.object_key == rest@);
                        }
                    }
                }
                return None;
            },
        };
        let namespace = rest.substring_char(0, m).to_owned();
        let object_key = rest.substring_char(m, rest.unicode_len()).to_owned();
        proof {
            assert(namespace@ =~= rest@.take(m as int));
            assert(rest@ =~= namespace@ + object_key@);
        }
        Some(ObjectKey { namespace, object_key })
    }

    /// Whether two keys name the same object.
    pub fn matches(&self, other: &ObjectKey) -> (r: bool)
        ensures
            r == (self@ == other@),
    {
        self.namespace == other.namespace && self.object_key == other.object_key
    }
}

proof fn lemma_first_index_unique(s: Seq<char>, i: int)
    requires
        is_first_index(s, ':', i),
    ensures
        forall|j: int| #[trigger] is_first_index(s, ':', j) ==> j == i,
{
    assert forall|j: int| #[trigger] is_first_index(s, ':', j) implies j == i by {
        if i < j {
            assert(s[i] != ':');
        } else if j < i {
            assert(s[j] != ':');
        }
    }
}

/// No two keys share a canonical form.
pub proof fn canonical_is_injective(a: KeyView, b: KeyView)
    requires
        canonical(a) == canonical(b),
    ensures
        a == b,
{
    lemma_canonical_colon(a);
    lemma_canonical_colon(b);
    let n = byte_len(a.namespace);
    let m = byte_len(b.namespace);
    lemma_first_index_unique(canonical(a), decimal(n).len() as int);
    assert(decimal(n) =~= canonical(a).take(decimal(n).len() as int));
    assert(decimal(m) =~= canonical(b).take(decimal(m).len() as int));
    text::lemma_decimal_injective(n, m);
    let k = decimal(n).len() as int + 1;
    assert(canonical(a).skip(k) =~= a.namespace + a.object_key);
    assert(canonical(b).skip(k) =~= b.namespace + b.object_key);
    text::lemma_equal_byte_split(a.namespace, a.object_key, b.namespace, b.object_key);
}

proof fn lemma_canonical_colon(k: KeyView)
    ensures
        is_first_index(canonical(k), ':', decimal(byte_len(k.namespace)).len() as int),
{
    let d = decimal(byte_len(k.namespace));
    text::lemma_decimal_value(byte_len(k.namespace));
    assert forall|i: int| 0 <= i < d.len() implies #[trigger] canonical(k)[i] != ':' by {
        assert(canonical(k)[i] == d[i]);
        assert(text::is_digit(d[i]));
    }
    assert(canonical(k)[d.len() as int] == ':');
}

/// A canonical form reads back as the key that it was made of, and as no other key. The
/// namespace length must fit a machine word, as that of every string does.
pub proof fn canonical_reads_back(k: KeyView)
    requires
        byte_len(k.namespace) <= usize::MAX,
    ensures
        reads_as(canonical(k), k),
        forall|other: KeyView| reads_as(canonical(k), other) ==> other == k,
{
    let s = canonical(k);
    let d = decimal(byte_len(k.namespace));
    lemma_canonical_colon(k);
    text::lemma_decimal_value(byte_len(k.namespace));
    assert(s.take(d.len() as int) =~= d);
    assert(s.skip(d.len() as int + 1) =~= k.namespace + k.object_key);
    assert(text::is_digit(d[0]));
    lemma_first_index_unique(s, d.len() as int);
    assert forall|other: KeyView| reads_as(s, other) implies other == k by {
        text::lemma_equal_byte_split(
            k.namespace,
            k.object_key,
            other.namespace,
            other.object_key,
        );
    }
}

/// Why a text is no canonical key.
#[derive(Clone, Copy, PartialEq, Eq, Structural, Debug)]
pub enum KeyError {
    /// There is no colon.
    NoSeparator,
    /// What stands before the colon is no unsigned decimal number.
    BadLength,
    /// The number exceeds the bytes that follow the colon.
    LengthExceedsKey,
    /// A selector names neither a canonical key nor both a namespace and a key.
    AmbiguousSelector,
}

impl KeyError {
    /// The explanation shown to the user.
    pub fn message(&self) -> (r: String)
        ensures
            r@ == self.text(),
    {
        match self {
            KeyError::NoSeparator => "expected <namespace_byte_len>:<namespace><object_key>; use --namespace and --object-key for a readable selector".to_owned(),
            KeyError::BadLength => "namespace byte length must be a decimal integer; use --namespace and --object-key for a readable selector".to_owned(),
            KeyError::LengthExceedsKey => "namespace byte length exceeds the remaining key bytes; use --namespace and --object-key for a readable selector".to_owned(),
            KeyError::AmbiguousSelector => "provide --key <canonical-key> or both --namespace <namespace> and --object-key <object-key>".to_owned(),
        }
    }

    pub open spec fn text(&self) -> Seq<char> {
        match self {
            KeyError::NoSeparator => "expected <namespace_byte_len>:<namespace><object_key>; use --namespace and --object-key for a readable selector"@,
            KeyError::BadLength => "namespace byte length must be a decimal integer; use --namespace and --object-key for a readable selector"@,
            KeyError::LengthExceedsKey => "namespace byte length exceeds the remaining key bytes; use --namespace and --object-key for a readable selector"@,
            KeyError::AmbiguousSelector => "provide --key <canonical-key> or both --namespace <namespace> and --object-key <object-key>"@,
        }
    }
}

/// What is wrong with a text as a canonical key, if anything.
pub open spec fn key_fault(s: Seq<char>, max: nat) -> Option<KeyError> {
    if forall|k: int| 0 <= k < s.len() ==> #[trigger] s[k] != ':' {
        Some(KeyError::NoSeparator)
    } else {
        let i = choose|i: int| is_first_index(s, ':', i);
        match parse_unsigned(s.take(i), max) {
            None => Some(KeyError::BadLength),
            Some(n) => if n > byte_len(s.skip(i + 1)) {
                Some(KeyError::LengthExceedsKey)
            } else {
                None
            },
        }
    }
}

/// Checks that a key has the canonical shape.
pub fn validate_canonical_key(key: &str) -> (r: Result<(), KeyError>)
    ensures
        match r {
            Ok(_) => key_fault(key@, usize::MAX as nat) is None,
            Err(e) => key_fault(key@, usize::MAX as nat) == Some(e),
        },
{
    let len: usize = key.unicode_len();
    let i: usize = match text::find_char(key, ':') {
        Some(i) => i,
        None => {
            return Err(KeyError::NoSeparator);
        },
    };
    proof {
        assert(key@[i as int] == ':');
        lemma_first_index_unique(key@, i as int);
        assert(key@.subrange(0, i as int) =~= key@.take(i as int));
    }
    let n: usize = match text::parse_usize(key.substring_char(0, i)) {
        Some(n) => n,
        None => {
            return Err(KeyError::BadLength);
        },
    };
    let rest = key.substring_char(i + 1, len);
    proof {
        assert(rest@ =~= key@.skip(i + 1));
    }
    if n > text::byte_length(rest) {
        return Err(KeyError::LengthExceedsKey);
    }
    Ok(())
}

/// The key that a selector stands for: a canonical key, or a namespace and a key inside it, or
/// the object that the bench writes when nothing is named.
pub fn resolve_object_key(
    key: Option<&str>,
    namespace: Option<&str>,
    object_key: Option<&str>,
) -> (r: Result<String, KeyError>)
    ensures
        match (key, namespace, object_key) {
            (Some(k), None, None) => match key_fault(k@, usize::MAX as nat) {
                None => r is Ok && r->Ok_0@ == k@,
                Some(e) => r == Err::<String, KeyError>(e),
            },
            (None, Some(n), Some(o)) => r is Ok && r->Ok_0@ == canonical(
                KeyView { namespace: n@, object_key: o@ },
            ),
            (None, None, None) => r is Ok && r->Ok_0@ == canonical(
                KeyView { namespace: "rust-bench"@, object_key: "comb0/__combined__"@ },
            ),
            _ => r == Err::<String, KeyError>(KeyError::AmbiguousSelector),
        },
{
    match (key, namespace, object_key) {
        (Some(k), None, None) => match validate_canonical_key(k) {
            Ok(_) => Ok(k.to_owned()),
            Err(e) => Err(e),
        },
        (None, Some(n), Some(o)) => Ok(canonical_key(n, o)),
        (None, None, None) => Ok(canonical_key("rust-bench", "comb0/__combined__")),
        _ => Err(KeyError::AmbiguousSelector),
    }
}

} // verus!
