//! The resolved configuration bundle of one type definition, and the
//! designation of "freed" type parameters.
//!
//! The front end validates the syntax of per-type options and hands the core
//! a fixed-shape bundle: representation hints, at most meaningfully one
//! ground designation, the type parameters designated free, and extra
//! validity bounds. A freed parameter is excluded from the bounds the
//! assembler would otherwise require of it; freeing a parameter that does
//! not exist, or freeing one twice, is a configuration error.

use vstd::prelude::*;
use crate::error::ConfigError;
use crate::reprs::ReprHint;
use crate::text::view_seq;

verus! {

/// The per-type configuration the front end resolves.
#[derive(Debug)]
pub struct TypeConfig {
    /// Representation hints attached to the definition.
    pub hints: Vec<ReprHint>,
    /// Every explicit ground designation, in the order given. More than one
    /// is a duplicate-configuration error.
    pub grounds: Vec<String>,
    /// Every type parameter designated free, in the order given.
    pub freed: Vec<String>,
    /// Extra validity bounds, already parsed by the front end.
    pub bounds: Vec<String>,
}

impl TypeConfig {
    /// A configuration with no hints, designations or bounds.
    pub fn new() -> (r: TypeConfig)
        ensures
            r.hints@.len() == 0,
            r.grounds@.len() == 0,
            r.freed@.len() == 0,
            r.bounds@.len() == 0,
    {
        TypeConfig { hints: Vec::new(), grounds: Vec::new(), freed: Vec::new(), bounds: Vec::new() }
    }
}

/// The first position holding `name`, if any.
pub open spec fn spec_find_text(names: Seq<Seq<char>>, name: Seq<char>) -> Option<int>
    decreases names.len(),
{
    if names.len() == 0 {
        None
    } else if names[0] == name {
        Some(0int)
    } else {
        match spec_find_text(names.drop_first(), name) {
            Some(i) => Some(i + 1),
            None => None,
        }
    }
}

/// What the first position holding `name` is: a hit is in range, reads
/// `name`, and nothing before it does; a miss means nothing does.
pub proof fn lemma_find_text(names: Seq<Seq<char>>, name: Seq<char>)
    ensures
        match spec_find_text(names, name) {
            Some(i) => 0 <= i < names.len() && names[i] == name && (forall|j: int|
                0 <= j < i ==> names[j] != name),
            None => forall|j: int| 0 <= j < names.len() ==> names[j] != name,
        },
    decreases names.len(),
{
    if names.len() > 0 && names[0] != name {
        lemma_find_text(names.drop_first(), name);
        assert forall|j: int| 1 <= j < names.len() implies names[j] == names.drop_first()[j
            - 1] by {}
    }
}

/// A position that matches with none before it is the first match.
pub proof fn lemma_first_match_unique(names: Seq<Seq<char>>, name: Seq<char>, i: int)
    requires
        0 <= i < names.len(),
        names[i] == name,
        forall|j: int| 0 <= j < i ==> names[j] != name,
    ensures
        spec_find_text(names, name) == Some(i),
{
    lemma_find_text(names, name);
    match spec_find_text(names, name) {
        Some(w) => {
            if w < i {
                assert(names[w] != name);
            } else if w > i {
                assert(names[i] != name);
            }
        },
        None => {
            assert(names[i] != name);
        },
    }
}

/// With no position matching, there is no first match.
pub proof fn lemma_no_match(names: Seq<Seq<char>>, name: Seq<char>)
    requires
        forall|j: int| 0 <= j < names.len() ==> names[j] != name,
    ensures
        spec_find_text(names, name) is None,
{
    lemma_find_text(names, name);
    if spec_find_text(names, name) is Some {
        let w = spec_find_text(names, name)->Some_0;
        assert(names[w] != name);
    }
}

/// Finds the first string of the given text.
fn find_string(names: &Vec<String>, name: &String) -> (r: Option<usize>)
    ensures
        match r {
            Some(i) => 0 <= i < names@.len() && names@[i as int]@ == name@ && (forall|j: int|
                0 <= j < i ==> (#[trigger] names@[j])@ != name@),
            None => forall|j: int| 0 <= j < names@.len() ==> (#[trigger] names@[j])@ != name@,
        },
{
    let mut i: usize = 0;
    while i < names.len()
        invariant
            i <= names@.len(),
            forall|j: int| 0 <= j < i ==> (#[trigger] names@[j])@ != name@,
        decreases names@.len() - i,
    {
        if names[i] == *name {
            return Some(i);
        }
        i = i + 1;
    }
    None
}

/// Freeing one parameter: the first parameter of that name leaves the list,
/// the last one taking its place; a name with no parameter is a miss.
pub open spec fn spec_free_one(params: Seq<Seq<char>>, name: Seq<char>) -> Option<Seq<Seq<char>>> {
    match spec_find_text(params, name) {
        Some(i) => Some(params.update(i, params.last()).drop_last()),
        None => None,
    }
}

/// Freeing a list of parameters in order; the first miss rejects the whole
/// designation list, a name freed twice missing on its second occurrence.
pub open spec fn spec_apply_freed(params: Seq<Seq<char>>, freed: Seq<Seq<char>>) -> Option<
    Seq<Seq<char>>,
>
    decreases freed.len(),
{
    if freed.len() == 0 {
        Some(params)
    } else {
        match spec_free_one(params, freed[0]) {
            Some(p) => spec_apply_freed(p, freed.drop_first()),
            None => None,
        }
    }
}

/// Freeing designations one more name at the end is freeing the earlier
/// ones, then it.
proof fn lemma_apply_freed_push(params: Seq<Seq<char>>, freed: Seq<Seq<char>>, name: Seq<char>)
    ensures
        spec_apply_freed(params, freed.push(name)) == match spec_apply_freed(params, freed) {
            Some(p) => spec_free_one(p, name),
            None => None,
        },
    decreases freed.len(),
{
    if freed.len() == 0 {
        assert(freed.push(name)[0] == name);
        assert(freed.push(name).drop_first() =~= Seq::<Seq<char>>::empty());
        match spec_free_one(params, name) {
            Some(p) => {
                assert(spec_apply_freed(params, freed.push(name)) == spec_apply_freed(
                    p,
                    freed.push(name).drop_first(),
                ));
                assert(spec_apply_freed(p, freed.push(name).drop_first()) == Some(p));
            },
            None => {
                assert(spec_apply_freed(params, freed.push(name)) is None);
            },
        }
    } else {
        assert(freed.push(name)[0] == freed[0]);
        assert(freed.push(name).drop_first() =~= freed.drop_first().push(name));
        match spec_free_one(params, freed[0]) {
            Some(p) => {
                assert(spec_apply_freed(params, freed.push(name)) == spec_apply_freed(
                    p,
                    freed.drop_first().push(name),
                ));
                assert(spec_apply_freed(params, freed) == spec_apply_freed(p, freed.drop_first()));
                lemma_apply_freed_push(p, freed.drop_first(), name);
            },
            None => {
                assert(spec_apply_freed(params, freed.push(name)) is None);
                assert(spec_apply_freed(params, freed) is None);
            },
        }
    }
}

/// Removes every freed type parameter from the parameter list, each taking
/// the first parameter of its name out and moving the last parameter into
/// its place. A designation that names no remaining parameter — because it
/// never existed or was already freed — rejects the configuration.
#[verifier::loop_isolation(false)]
pub fn apply_free_params(params: Vec<String>, freed: &Vec<String>) -> (r: Result<
    Vec<String>,
    ConfigError,
>)
    ensures
        match r {
            Ok(v) => spec_apply_freed(view_seq(params@), view_seq(freed@)) == Some(view_seq(v@)),
            Err(e) => e == ConfigError::UnknownFreeParameter && spec_apply_freed(
                view_seq(params@),
                view_seq(freed@),
            ) is None,
        },
{
    let ghost params0 = view_seq(params@);
    let mut ps = params;
    let mut k: usize = 0;
    while k < freed.len()
        invariant
            k <= freed@.len(),
            spec_apply_freed(params0, view_seq(freed@).take(k as int)) == Some(view_seq(ps@)),
        decreases freed@.len() - k,
    {
        let ghost taken = view_seq(freed@).take(k as int);
        let ghost cur = view_seq(ps@);
        let name = &freed[k];
        let hit = find_string(&ps, name);
        proof {
            lemma_find_text(cur, name@);
            lemma_apply_freed_push(params0, taken, name@);
            assert(view_seq(freed@).take(k as int + 1) =~= taken.push(name@));
        }
        match hit {
            None => {
                proof {
                    assert(spec_find_text(cur, name@) is None) by {
                        if spec_find_text(cur, name@) is Some {
                            let w = spec_find_text(cur, name@)->Some_0;
                            assert(cur[w] == name@);
                        }
                    }
                    lemma_apply_freed_none(params0, view_seq(freed@), k as int, name@);
                }
                return Err(ConfigError::UnknownFreeParameter);
            },
            Some(i) => {
                proof {
                    assert(spec_find_text(cur, name@) is Some) by {
                        if spec_find_text(cur, name@) is None {
                            assert(cur[i as int] == name@);
                        }
                    }
                    let fi = spec_find_text(cur, name@)->Some_0;
                    assert(fi == i as int) by {
                        if fi < i {
                            assert(cur[fi] != name@);
                        } else if fi > i {
                            assert(cur[i as int] != name@);
                        }
                    }
                }
                let _ = ps.swap_remove(i);
                proof {
                    assert(view_seq(ps@) =~= cur.update(i as int, cur.last()).drop_last());
                }
            },
        }
        k = k + 1;
    }
    proof {
        assert(view_seq(freed@).take(freed@.len() as int) =~= view_seq(freed@));
    }
    Ok(ps)
}

/// A miss while freeing the names taken so far rejects the whole list.
proof fn lemma_apply_freed_none(
    params0: Seq<Seq<char>>,
    freed: Seq<Seq<char>>,
    k: int,
    name: Seq<char>,
)
    requires
        0 <= k < freed.len(),
        freed[k] == name,
        spec_apply_freed(params0, freed.take(k)) matches Some(p) && spec_free_one(p, name)
            is None,
    ensures
        spec_apply_freed(params0, freed) is None,
{
    let p = spec_apply_freed(params0, freed.take(k))->Some_0;
    lemma_apply_freed_stuck(params0, freed, k, p);
}

/// Once the names up to `k` leave the parameters stuck, the whole list is
/// stuck.
proof fn lemma_apply_freed_stuck(
    params0: Seq<Seq<char>>,
    freed: Seq<Seq<char>>,
    k: int,
    p: Seq<Seq<char>>,
)
    requires
        0 <= k < freed.len(),
        spec_apply_freed(params0, freed.take(k)) == Some(p),
        spec_free_one(p, freed[k]) is None,
    ensures
        spec_apply_freed(params0, freed) is None,
    decreases k,
{
    if k == 0 {
        assert(freed.take(0) =~= Seq::<Seq<char>>::empty());
        assert(p == params0);
        assert(freed.len() > 0);
    } else {
        assert(freed.take(k)[0] == freed[0]);
        match spec_free_one(params0, freed[0]) {
            Some(q) => {
                assert(freed.take(k).drop_first() =~= freed.drop_first().take(k - 1));
                assert(freed.drop_first()[k - 1] == freed[k]);
                lemma_apply_freed_stuck(q, freed.drop_first(), k - 1, p);
            },
            None => {},
        }
    }
}

} // verus!
