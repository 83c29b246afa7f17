//! Walking history through first parents.

use vstd::prelude::*;
use vstd::utf8::*;
use crate::cat::prepend;
use crate::error::GutsError;
use crate::object::{Commit, CommitView};
use crate::store::{ObjectStore, StoreState, commit_spec};

verus! {

broadcast use encode_utf8_decode_utf8;

/// The commits from `id` back through first parents to a root commit; a
/// walk that needs more than `fuel` commits fails.
pub open spec fn chain_spec(s: StoreState, id: Seq<char>, fuel: nat) -> Option<Seq<(Seq<char>, CommitView)>>
    decreases fuel,
{
    if fuel == 0 {
        None
    } else {
        match commit_spec(s, id) {
            None => None,
            Some(c) => if c.parents.len() == 0 {
                Some(seq![(id, c)])
            } else {
                prepend(seq![(id, c)], chain_spec(s, decode_utf8(c.parents[0]), (fuel - 1) as nat))
            },
        }
    }
}

pub open spec fn chain_view(v: Seq<(String, Commit)>) -> Seq<(Seq<char>, CommitView)> {
    v.map_values(|x: (String, Commit)| (x.0@, x.1@))
}

/// The commits from `start` back to the root through first parents, newest
/// first. The walk may visit as many commits as the store holds objects.
pub fn first_parent_chain(store: &ObjectStore, start: &String) -> (r: Result<Vec<(String, Commit)>, GutsError>)
    ensures
        match chain_spec(store@, start@, store@.objects.len() as nat) {
            Some(l) => r matches Ok(v) && chain_view(v@) == l,
            None => r is Err,
        },
{
    let mut out: Vec<(String, Commit)> = Vec::new();
    let mut cur = start.clone();
    let mut fuel = store.len();
    assert(chain_view(out@) =~= Seq::<(Seq<char>, CommitView)>::empty());
    assert(Seq::<(Seq<char>, CommitView)>::empty() + Seq::<(Seq<char>, CommitView)>::empty() =~= Seq::<(Seq<char>, CommitView)>::empty());
    loop
        invariant
            chain_spec(store@, start@, store@.objects.len() as nat) == prepend(
                chain_view(out@),
                chain_spec(store@, cur@, fuel as nat),
            ),
        decreases fuel,
    {
        if fuel == 0 {
            return Err(GutsError::MalformedObject);
        }
        let c = store.read_commit(&cur)?;
        let ghost before = chain_view(out@);
        let ghost cv = c@;
        let ghost id = cur@;
        if c.parents.len() == 0 {
            out.push((cur, c));
            proof {
                assert(chain_view(out@) =~= before + seq![(id, cv)]);
            }
            return Ok(out);
        }
        let next = c.parents[0].clone();
        proof {
            assert(cv.parents[0] == encode_utf8(c.parents@[0]@));
        }
        out.push((cur, c));
        proof {
            assert(chain_view(out@) =~= before + seq![(id, cv)]);
            match chain_spec(store@, next@, (fuel - 1) as nat) {
                Some(t) => {
                    assert(before + (seq![(id, cv)] + t) =~= before + seq![(id, cv)] + t);
                },
                None => {},
            }
        }
        cur = next;
        fuel -= 1;
    }
}

} // verus!
