//! Representation hints and their canonical rendering.
//!
//! A type definition may carry representation hints (packing or alignment
//! directives, an explicit tag width, a layout convention). They are kept as
//! one canonical string: every hint is rendered to text, the rendered hints
//! are sorted, duplicates are dropped, and the survivors are joined with
//! commas — at every nesting level — so that two types with equivalent but
//! differently ordered hints carry equal representation strings.

use vstd::prelude::*;
use crate::text::{canonical_join, canonical_join_strings, view_seq};

verus! {

/// One representation hint, as the front end hands it over.
#[derive(Debug)]
pub enum ReprHint {
    /// A bare word, rendered as itself.
    Word(String),
    /// A named value, rendered as `name=value`.
    Value(String, String),
    /// A named group of nested hints, rendered as `name(...)` with the
    /// members in canonical form.
    Group(String, Vec<ReprHint>),
}

/// The canonical text of one hint.
pub open spec fn spec_render(h: ReprHint) -> Seq<char>
    decreases h,
{
    match h {
        ReprHint::Word(w) => w@,
        ReprHint::Value(p, v) => p@ + seq!['='] + v@,
        ReprHint::Group(p, items) => p@ + seq!['('] + canonical_join(spec_render_list(items@))
            + seq![')'],
    }
}

/// The canonical texts of a list of hints, in the list's order.
pub open spec fn spec_render_list(items: Seq<ReprHint>) -> Seq<Seq<char>>
    decreases items,
{
    if items.len() == 0 {
        Seq::empty()
    } else {
        spec_render_list(items.drop_last()).push(spec_render(items.last()))
    }
}

/// Rendering a list renders each hint in place.
pub proof fn lemma_spec_render_list_index(items: Seq<ReprHint>)
    ensures
        spec_render_list(items).len() == items.len(),
        forall|i: int|
            0 <= i < items.len() ==> #[trigger] spec_render_list(items)[i] == spec_render(
                items[i],
            ),
    decreases items.len(),
{
    if items.len() > 0 {
        lemma_spec_render_list_index(items.drop_last());
    }
}

/// Renders one hint to its canonical text.
#[verifier::loop_isolation(false)]
pub fn render_hint(h: &ReprHint) -> (r: String)
    ensures
        r@ == spec_render(*h),
    decreases *h,
{
    match h {
        ReprHint::Word(w) => w.clone(),
        ReprHint::Value(p, v) => {
            proof {
                reveal_strlit("=");
            }
            let mut s = p.clone();
            s.append("=");
            s.append(v.as_str());
            proof {
                assert("="@ =~= seq!['=']);
                assert(s@ =~= p@ + seq!['='] + v@);
            }
            s
        },
        ReprHint::Group(p, items) => {
            let mut rendered: Vec<String> = Vec::new();
            let mut i: usize = 0;
            while i < items.len()
                invariant
                    i <= items@.len(),
                    view_seq(rendered@) == spec_render_list(items@.take(i as int)),
                decreases items@.len() - i,
            {
                proof {
                    assert(*items == h->Group_1);
                    assert(decreases_to!(*h => h->Group_1));
                    assert(decreases_to!(h->Group_1 => h->Group_1@));
                    assert(decreases_to!(h->Group_1@ => h->Group_1@[i as int]));
                    assert(decreases_to!(*h => items@[i as int]));
                }
                let one = render_hint(&items[i]);
                let ghost prev = rendered@;
                rendered.push(one);
                proof {
                    let post = items@.take(i as int + 1);
                    assert(post.drop_last() =~= items@.take(i as int));
                    assert(post.last() == items@[i as int]);
                    assert(view_seq(rendered@) =~= view_seq(prev).push(spec_render(
                        items@[i as int],
                    )));
                    assert(view_seq(rendered@) =~= spec_render_list(post));
                }
                i = i + 1;
            }
            proof {
                assert(items@.take(items@.len() as int) =~= items@);
                reveal_strlit("(");
                reveal_strlit(")");
            }
            let inner = canonical_join_strings(rendered);
            let mut s = p.clone();
            s.append("(");
            s.append(inner.as_str());
            s.append(")");
            proof {
                assert("("@ =~= seq!['(']);
                assert(")"@ =~= seq![')']);
                assert(s@ =~= p@ + seq!['('] + canonical_join(spec_render_list(items@)) + seq![
                    ')',
                ]);
            }
            s
        },
    }
}

/// Resolves the representation hints of one definition into their canonical
/// one-line form.
pub fn canonical_reprs(hints: &Vec<ReprHint>) -> (r: String)
    ensures
        r@ == canonical_join(spec_render_list(hints@)),
{
    let mut rendered: Vec<String> = Vec::new();
    let mut i: usize = 0;
    while i < hints.len()
        invariant
            i <= hints@.len(),
            view_seq(rendered@) == spec_render_list(hints@.take(i as int)),
        decreases hints@.len() - i,
    {
        let one = render_hint(&hints[i]);
        let ghost prev = rendered@;
        rendered.push(one);
        proof {
            let post = hints@.take(i as int + 1);
            assert(post.drop_last() =~= hints@.take(i as int));
            assert(post.last() == hints@[i as int]);
            assert(view_seq(rendered@) =~= view_seq(prev).push(spec_render(hints@[i as int])));
            assert(view_seq(rendered@) =~= spec_render_list(post));
        }
        i = i + 1;
    }
    proof {
        assert(hints@.take(hints@.len() as int) =~= hints@);
    }
    canonical_join_strings(rendered)
}

/// Canonicity: the resolved representation hears only the set of rendered
/// hints. Two hint lists with the same hints, however ordered and however
/// often repeated, resolve to one string.
pub proof fn lemma_canonical_reprs_of_set(h1: Seq<ReprHint>, h2: Seq<ReprHint>)
    requires
        spec_render_list(h1).to_set() == spec_render_list(h2).to_set(),
    ensures
        canonical_join(spec_render_list(h1)) == canonical_join(spec_render_list(h2)),
{
    crate::text::lemma_canonical_join_of_set(spec_render_list(h1), spec_render_list(h2));
}

} // verus!
