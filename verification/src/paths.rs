//! The spellings of a path: repeated slashes, components that name the directory itself and a
//! slash at the end make no difference to where it leads.
use crate::text;
use crate::text::{fields, views};
use vstd::prelude::*;
use vstd::string::*;

verus! {

/// The path starts at the root.
pub open spec fn absolute(path: Seq<char>) -> bool {
    path.len() > 0 && path[0] == '/'
}

/// The `i`-th part between the slashes of a path is a component of it. An empty one is not, and
/// a single dot is one only at the very beginning.
pub open spec fn is_component(part: Seq<char>, i: int) -> bool {
    part.len() > 0 && (i == 0 || part != "."@)
}

/// The parts that are components.
pub open spec fn components_of(parts: Seq<Seq<char>>) -> Seq<Seq<char>>
    decreases parts.len(),
{
    if parts.len() == 0 {
        Seq::empty()
    } else {
        let front = components_of(parts.drop_last());
        if is_component(parts.last(), parts.len() - 1) {
            front.push(parts.last())
        } else {
            front
        }
    }
}

/// The components of a path.
pub open spec fn components(path: Seq<char>) -> Seq<Seq<char>> {
    components_of(fields(path, '/'))
}

/// Components with one slash between any two.
pub open spec fn joined(parts: Seq<Seq<char>>) -> Seq<char>
    decreases parts.len(),
{
    if parts.len() == 0 {
        Seq::empty()
    } else if parts.len() == 1 {
        parts[0]
    } else {
        joined(parts.drop_last()) + "/"@ + parts.last()
    }
}

/// The spelling of a path that all its spellings share.
pub open spec fn normal(path: Seq<char>) -> Seq<char> {
    if absolute(path) {
        "/"@ + joined(components(path))
    } else {
        joined(components(path))
    }
}

/// The components of a path with the root, where it starts there, as the first.
pub open spec fn from_root(path: Seq<char>) -> Seq<Seq<char>> {
    if absolute(path) {
        seq!["/"@] + components(path)
    } else {
        components(path)
    }
}

/// The path lies under another: the components of the other, the root counted as one, are the
/// first of its own.
pub open spec fn path_under(path: Seq<char>, prefix: Seq<char>) -> bool {
    from_root(prefix).is_prefix_of(from_root(path))
}

/// Brings a path into the spelling that all its spellings share.
pub fn normalized(path: &str) -> (r: String)
    ensures
        r@ == normal(path@),
{
    let parts = text::split(path, '/');
    let ghost all = views(parts@);
    let mut out = "".to_owned();
    let mut empty: bool = true;
    let mut i: usize = 0;
    proof {
        reveal_strlit("");
        assert(all.take(0) =~= Seq::<Seq<char>>::empty());
        assert(out@ =~= joined(components_of(all.take(0))));
    }
    while i < parts.len()
        invariant
            i <= parts.len(),
            all == views(parts@),
            out@ == joined(components_of(all.take(i as int))),
            empty == (components_of(all.take(i as int)).len() == 0),
        decreases parts.len() - i,
    {
        let part = parts[i].as_str();
        let ghost front = components_of(all.take(i as int));
        proof {
            assert(all.take(i + 1).drop_last() =~= all.take(i as int));
            assert(all.take(i + 1).last() == part@);
            assert(front.push(part@).drop_last() =~= front);
        }
        if part.unicode_len() > 0 && (i == 0 || !text::same(part, ".")) {
            if empty {
                out = part.to_owned();
            } else {
                out.append("/");
                out.append(part);
            }
            empty = false;
        }
        i = i + 1;
    }
    proof {
        assert(all.take(i as int) =~= all);
    }
    if text::starts_with(path, "/") {
        proof {
            reveal_strlit("/");
            assert(path@.subrange(0, 1)[0] == path@[0]);
        }
        let mut whole = "/".to_owned();
        whole.append(out.as_str());
        whole
    } else {
        proof {
            reveal_strlit("/");
            if absolute(path@) {
                assert(path@.subrange(0, 1) =~= "/"@);
            }
        }
        out
    }
}

spec fn slash_free(s: Seq<char>) -> bool {
    forall|k: int| 0 <= k < s.len() ==> #[trigger] s[k] != '/'
}

spec fn proper(parts: Seq<Seq<char>>) -> bool {
    forall|k: int|
        0 <= k < parts.len() ==> slash_free(#[trigger] parts[k]) && parts[k].len() > 0
}

proof fn lemma_fields_are_slash_free(s: Seq<char>)
    ensures
        fields(s, '/').len() > 0,
        forall|k: int| 0 <= k < fields(s, '/').len() ==> slash_free(#[trigger] fields(s, '/')[k]),
    decreases s.len(),
{
    if s.len() > 0 {
        lemma_fields_are_slash_free(s.drop_last());
    }
}

proof fn lemma_components_are_proper(parts: Seq<Seq<char>>)
    requires
        forall|k: int| 0 <= k < parts.len() ==> slash_free(#[trigger] parts[k]),
    ensures
        proper(components_of(parts)),
    decreases parts.len(),
{
    if parts.len() > 0 {
        lemma_components_are_proper(parts.drop_last());
    }
}

proof fn lemma_one_field(c: Seq<char>)
    requires
        slash_free(c),
    ensures
        fields(c, '/') == seq![c],
    decreases c.len(),
{
    if c.len() > 0 {
        lemma_one_field(c.drop_last());
        assert(c.drop_last().push(c.last()) =~= c);
        assert(fields(c, '/') =~= seq![c]);
    }
}

proof fn lemma_field_added(s: Seq<char>, c: Seq<char>)
    requires
        slash_free(c),
    ensures
        fields(s + seq!['/'] + c, '/') == fields(s, '/').push(c),
    decreases c.len(),
{
    let t = s + seq!['/'] + c;
    if c.len() == 0 {
        assert(t.drop_last() =~= s);
        assert(c =~= Seq::<char>::empty());
    } else {
        let d = c.drop_last();
        lemma_field_added(s, d);
        assert(t.drop_last() =~= s + seq!['/'] + d);
        assert(d.push(c.last()) =~= c);
        assert(fields(t, '/') =~= fields(s, '/').push(c));
    }
}

proof fn lemma_joined_reads_back(parts: Seq<Seq<char>>)
    requires
        proper(parts),
        parts.len() > 0,
    ensures
        fields(joined(parts), '/') == parts,
        joined(parts).len() > 0,
        joined(parts)[0] != '/',
    decreases parts.len(),
{
    if parts.len() == 1 {
        lemma_one_field(parts[0]);
        assert(seq![parts[0]] =~= parts);
        assert(parts[0][0] != '/');
    } else {
        let front = parts.drop_last();
        lemma_joined_reads_back(front);
        reveal_strlit("/");
        assert("/"@ =~= seq!['/']);
        lemma_field_added(joined(front), parts.last());
        assert(front.push(parts.last()) =~= parts);
        assert(joined(parts)[0] == joined(front)[0]);
    }
}

/// Two paths share their normal spelling exactly where both start at the root or neither does
/// and they have the same components.
pub proof fn normal_spelling_tells_paths_apart(a: Seq<char>, b: Seq<char>)
    ensures
        normal(a) == normal(b) <==> absolute(a) == absolute(b) && components(a) == components(b),
{
    lemma_fields_are_slash_free(a);
    lemma_fields_are_slash_free(b);
    let x = components(a);
    let y = components(b);
    lemma_components_are_proper(fields(a, '/'));
    lemma_components_are_proper(fields(b, '/'));
    if x.len() > 0 {
        lemma_joined_reads_back(x);
    }
    if y.len() > 0 {
        lemma_joined_reads_back(y);
    }
    reveal_strlit("/");
    if normal(a) == normal(b) {
        if absolute(a) {
            assert(normal(a)[0] == '/');
        }
        if absolute(b) {
            assert(normal(b)[0] == '/');
        }
        assert(absolute(a) == absolute(b));
        if absolute(a) {
            assert(normal(a).skip(1) =~= joined(x));
            assert(normal(b).skip(1) =~= joined(y));
        }
        assert(joined(x) == joined(y));
        assert(x =~= y);
    }
}

} // verus!
