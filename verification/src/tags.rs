//! Tag bindings: the map from replay-path tag to the node that owns the
//! path, represented as an association list with pairwise-distinct keys and
//! viewed as a `Map`.

use vstd::prelude::*;
use crate::packet::{NodeIndex, Tag};

verus! {

/// Some pair in `s` carries the key `t`.
pub open spec fn has_tag(s: Seq<(Tag, NodeIndex)>, t: Tag) -> bool {
    exists|i: int| 0 <= i < s.len() && (#[trigger] s[i]).0 == t
}

/// The keys of `s` are pairwise distinct.
pub open spec fn unique_tags(s: Seq<(Tag, NodeIndex)>) -> bool {
    forall|i: int, j: int| 0 <= i < j < s.len() ==> (#[trigger] s[i]).0 != (#[trigger] s[j]).0
}

/// The map an association list stands for; later pairs override earlier ones.
pub open spec fn tags_as_map(s: Seq<(Tag, NodeIndex)>) -> Map<Tag, NodeIndex>
    decreases s.len(),
{
    if s.len() == 0 {
        Map::empty()
    } else {
        tags_as_map(s.drop_last()).insert(s.last().0, s.last().1)
    }
}

/// The map's domain holds exactly the keys of the list.
pub proof fn lemma_tags_as_map_dom(s: Seq<(Tag, NodeIndex)>)
    ensures
        forall|t: Tag| #[trigger] tags_as_map(s).contains_key(t) <==> has_tag(s, t),
    decreases s.len(),
{
    if s.len() > 0 {
        let dl = s.drop_last();
        lemma_tags_as_map_dom(dl);
        assert forall|t: Tag| #[trigger] tags_as_map(s).contains_key(t) <==> has_tag(s, t) by {
            assert(tags_as_map(s) == tags_as_map(dl).insert(s.last().0, s.last().1));
            if tags_as_map(s).contains_key(t) {
                if t == s.last().0 {
                    assert(s[s.len() - 1].0 == t);
                } else {
                    assert(tags_as_map(dl).contains_key(t));
                    assert(has_tag(dl, t));
                    let i = choose|i: int| 0 <= i < dl.len() && (#[trigger] dl[i]).0 == t;
                    assert(dl[i] == s[i]);
                    assert(s[i].0 == t);
                }
                assert(has_tag(s, t));
            }
            if has_tag(s, t) {
                let i = choose|i: int| 0 <= i < s.len() && (#[trigger] s[i]).0 == t;
                if i < s.len() - 1 {
                    assert(dl[i].0 == t);
                    assert(has_tag(dl, t));
                    assert(tags_as_map(dl).contains_key(t));
                }
                assert(tags_as_map(s).contains_key(t));
            }
        }
    }
}

/// Under distinct keys, the pair at index `i` decides the map at its key.
pub proof fn lemma_tags_as_map_index(s: Seq<(Tag, NodeIndex)>, i: int)
    requires
        unique_tags(s),
        0 <= i < s.len(),
    ensures
        tags_as_map(s).contains_key(s[i].0),
        tags_as_map(s)[s[i].0] == s[i].1,
    decreases s.len(),
{
    if i == s.len() - 1 {
    } else {
        assert(unique_tags(s.drop_last()));
        lemma_tags_as_map_index(s.drop_last(), i);
        assert(s.drop_last()[i] == s[i]);
        assert(s[i].0 != s.last().0);
    }
}

/// Distinct keys survive removing one pair.
pub proof fn lemma_unique_tags_remove(s: Seq<(Tag, NodeIndex)>, i: int)
    requires
        unique_tags(s),
        0 <= i < s.len(),
    ensures
        unique_tags(s.remove(i)),
        forall|t: Tag| #[trigger] has_tag(s.remove(i), t) ==> has_tag(s, t),
        !has_tag(s.remove(i), s[i].0),
{
    assert forall|a: int, b: int| 0 <= a < b < s.remove(i).len() implies (#[trigger] s.remove(
        i,
    )[a]).0 != (#[trigger] s.remove(i)[b]).0 by {
        let a0: int = if a < i { a } else { a + 1 };
        let b0: int = if b < i { b } else { b + 1 };
        assert(s.remove(i)[a] == s[a0]);
        assert(s.remove(i)[b] == s[b0]);
    }
    assert forall|t: Tag| #[trigger] has_tag(s.remove(i), t) implies has_tag(s, t) by {
        let j = choose|j: int| 0 <= j < s.remove(i).len() && (#[trigger] s.remove(i)[j]).0 == t;
        let j0: int = if j < i { j } else { j + 1 };
        assert(s[j0].0 == t);
    }
    assert forall|j: int| 0 <= j < s.remove(i).len() implies (#[trigger] s.remove(i)[j]).0
        != s[i].0 by {
        let j0: int = if j < i { j } else { j + 1 };
        assert(s.remove(i)[j] == s[j0]);
    }
}

/// Under distinct keys, removing the pair at index `i` removes exactly its
/// key from the map.
pub proof fn lemma_tags_as_map_remove(s: Seq<(Tag, NodeIndex)>, i: int)
    requires
        unique_tags(s),
        0 <= i < s.len(),
    ensures
        tags_as_map(s.remove(i)) == tags_as_map(s).remove(s[i].0),
    decreases s.len(),
{
    let k = s[i].0;
    if i == s.len() - 1 {
        assert(s.remove(i) =~= s.drop_last());
        lemma_tags_as_map_dom(s.drop_last());
        assert forall|a: int, b: int| 0 <= a < b < s.drop_last().len() implies (
        #[trigger] s.drop_last()[a]).0 != (#[trigger] s.drop_last()[b]).0 by {
            assert(s[a].0 != s[b].0);
        }
        assert(!has_tag(s.drop_last(), k));
        assert(tags_as_map(s.drop_last()) =~= tags_as_map(s).remove(k));
    } else {
        let dl = s.drop_last();
        assert(unique_tags(dl));
        assert(dl[i] == s[i]);
        lemma_tags_as_map_remove(dl, i);
        assert(s.remove(i).drop_last() =~= dl.remove(i));
        assert(s.remove(i).last() == s.last());
        assert(s.remove(i).len() == s.len() - 1);
        assert(tags_as_map(s.remove(i)) == tags_as_map(dl.remove(i)).insert(
            s.last().0,
            s.last().1,
        ));
        assert(s.last().0 != k);
        assert(tags_as_map(dl).remove(k).insert(s.last().0, s.last().1) =~= tags_as_map(
            dl,
        ).insert(s.last().0, s.last().1).remove(k));
    }
}

} // verus!
