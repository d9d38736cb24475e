//! Tags, given as one text with commas.
use crate::models::Text;
use crate::text::{chars_of, slice_text, same_text, texts, trim, trimmed};
use vstd::prelude::*;

verus! {

/// A text cut at every comma.
pub open spec fn comma_parts(s: Text) -> Seq<Text>
    decreases s.len(),
{
    if s.len() == 0 {
        seq![Seq::empty()]
    } else {
        let p = comma_parts(s.drop_last());
        if s.last() == ',' {
            p.push(Seq::empty())
        } else {
            p.update(p.len() - 1, p.last().push(s.last()))
        }
    }
}

/// The tags of some parts: without white space around them, without empty ones, each once.
pub open spec fn tags_of(parts: Seq<Text>) -> Seq<Text>
    decreases parts.len(),
{
    if parts.len() == 0 {
        Seq::empty()
    } else {
        let rest = tags_of(parts.drop_last());
        let t = trimmed(parts.last());
        if t.len() == 0 || rest.contains(t) {
            rest
        } else {
            rest.push(t)
        }
    }
}

/// The tags that a text with commas stands for.
pub open spec fn tags_value(s: Text) -> Seq<Text> {
    tags_of(comma_parts(s))
}

/// Takes up a part, unless it is empty or there already.
fn take_tag(tags: &mut Vec<String>, part: &str)
    ensures
        texts(final(tags)@) == if trimmed(part@).len() == 0 || texts(old(tags)@).contains(
            trimmed(part@),
        ) {
            texts(old(tags)@)
        } else {
            texts(old(tags)@).push(trimmed(part@))
        },
{
    let t = trim(part);
    if t.as_str().is_empty() {
        return;
    }
    let ghost v = texts(tags@);
    let n: usize = tags.len();
    for i in 0..n
        invariant
            n == tags@.len(),
            v == texts(tags@),
            v == texts(old(tags)@),
            t@ == trimmed(part@),
            forall|k: int| 0 <= k < i ==> #[trigger] v[k] != t@,
    {
        if same_text(tags[i].as_str(), t.as_str()) {
            assert(v[i as int] == t@);
            return;
        }
    }
    let ghost x = t@;
    tags.push(t);
    assert(texts(tags@) =~= v.push(x));
}

/// Reads tags: the parts between commas, without white space around them, each once.
pub fn parse_tags(s: &str) -> (r: Vec<String>)
    ensures
        texts(r@) == tags_value(s@),
{
    let v = chars_of(s);
    let mut tags: Vec<String> = Vec::new();
    let mut from: usize = 0;
    let n: usize = v.len();
    assert(texts(tags@) =~= tags_of(comma_parts(v@.take(0)).drop_last())) by {
        assert(comma_parts(v@.take(0)).drop_last() =~= Seq::<Text>::empty());
    }
    assert(v@.subrange(0, 0) =~= Seq::<char>::empty());
    for i in 0..n
        invariant
            n == v@.len(),
            from <= i,
            texts(tags@) == tags_of(comma_parts(v@.take(i as int)).drop_last()),
            comma_parts(v@.take(i as int)).len() > 0,
            v@.subrange(from as int, i as int) == comma_parts(v@.take(i as int)).last(),
    {
        let ghost p = comma_parts(v@.take(i as int));
        let ghost q = comma_parts(v@.take(i + 1));
        proof {
            assert(v@.take(i + 1).drop_last() =~= v@.take(i as int));
        }
        if v[i] == ',' {
            proof {
                assert(q.drop_last() =~= p);
            }
            take_tag(&mut tags, slice_text(&v, from, i).as_str());
            from = i + 1;
            assert(v@.subrange(from as int, i + 1) =~= Seq::<char>::empty());
        } else {
            proof {
                assert(q.drop_last() =~= p.drop_last());
                assert(v@.subrange(from as int, i + 1) =~= v@.subrange(
                    from as int,
                    i as int,
                ).push(v@[i as int]));
            }
        }
    }
    assert(v@.take(n as int) =~= v@);
    take_tag(&mut tags, slice_text(&v, from, n).as_str());
    tags
}

/// No tag is there twice, and none is empty, so that a project or an
/// entry can have them.
pub proof fn law_tags(s: Text)
    ensures
        tags_value(s).no_duplicates(),
        forall|i: int| 0 <= i < tags_value(s).len() ==> (#[trigger] tags_value(s)[i]).len() > 0,
{
    lemma_tags(comma_parts(s));
}

/// A text without a comma stands for one tag, that text without the white space at its ends, or for
/// none where nothing is left. Behind a comma it adds that tag to those before, unless it is there.
pub proof fn law_tag_list(s: Text, part: Text)
    requires
        forall|i: int| 0 <= i < part.len() ==> (#[trigger] part[i]) != ',',
    ensures
        tags_value(part) == if trimmed(part).len() == 0 {
            Seq::<Text>::empty()
        } else {
            seq![trimmed(part)]
        },
        tags_value(s + seq![','] + part) == if trimmed(part).len() == 0 || tags_value(s).contains(
            trimmed(part),
        ) {
            tags_value(s)
        } else {
            tags_value(s).push(trimmed(part))
        },
{
    let none = Seq::<Text>::empty();
    lemma_one_part(part);
    assert(comma_parts(part).drop_last() =~= none);
    assert(tags_of(none) =~= none);
    assert(seq![trimmed(part)] =~= none.push(trimmed(part)));
    lemma_parts_joined(s, part);
    assert(comma_parts(s + seq![','] + part).drop_last() =~= comma_parts(s));
}

proof fn lemma_one_part(part: Text)
    requires
        forall|i: int| 0 <= i < part.len() ==> (#[trigger] part[i]) != ',',
    ensures
        comma_parts(part) == seq![part],
    decreases part.len(),
{
    if part.len() > 0 {
        assert(part[part.len() - 1] != ',');
        let t = part.drop_last();
        assert forall|i: int| 0 <= i < t.len() implies (#[trigger] t[i]) != ',' by {
            assert(t[i] == part[i]);
        }
        lemma_one_part(t);
        assert(t.push(part.last()) =~= part);
        assert(comma_parts(part) =~= seq![part]);
    } else {
        assert(part =~= Seq::<char>::empty());
    }
}

proof fn lemma_parts_joined(s: Text, part: Text)
    requires
        forall|i: int| 0 <= i < part.len() ==> (#[trigger] part[i]) != ',',
    ensures
        comma_parts(s + seq![','] + part) == comma_parts(s).push(part),
    decreases part.len(),
{
    let all = s + seq![','] + part;
    if part.len() > 0 {
        assert(part[part.len() - 1] != ',');
        let t = part.drop_last();
        assert forall|i: int| 0 <= i < t.len() implies (#[trigger] t[i]) != ',' by {
            assert(t[i] == part[i]);
        }
        lemma_parts_joined(s, t);
        assert(all.drop_last() =~= s + seq![','] + t);
        assert(t.push(part.last()) =~= part);
        assert(comma_parts(all) =~= comma_parts(s).push(part));
    } else {
        assert(all.drop_last() =~= s);
        assert(part =~= Seq::<char>::empty());
    }
}

proof fn lemma_tags(parts: Seq<Text>)
    ensures
        tags_of(parts).no_duplicates(),
        forall|i: int| 0 <= i < tags_of(parts).len() ==> (#[trigger] tags_of(parts)[i]).len() > 0,
    decreases parts.len(),
{
    if parts.len() > 0 {
        lemma_tags(parts.drop_last());
        let rest = tags_of(parts.drop_last());
        let t = trimmed(parts.last());
        if t.len() > 0 && !rest.contains(t) {
            assert forall|i: int| 0 <= i < rest.len() implies rest[i] != t by {
                assert(rest.contains(rest[i]));
            }
        }
    }
}

} // verus!
