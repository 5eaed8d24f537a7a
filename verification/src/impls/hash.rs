//! Reading `HashMap` and `HashSet`.
use crate::ctx::Limit;
use crate::error::DekuError;
use crate::reader::Reader;
use crate::DekuReader;
use std::collections::{HashMap, HashSet};
use std::hash::{BuildHasher, Hash};
use vstd::prelude::*;
use vstd::std_specs::hash::{builds_valid_hashers, obeys_key_model};

verus! {

/// The map that inserting `pairs` in turn into an empty map makes: a key
/// read again takes the later value.
pub open spec fn map_of_pairs<K, V>(pairs: Seq<(K, V)>) -> Map<K, V>
    decreases pairs.len(),
{
    if pairs.len() == 0 {
        Map::empty()
    } else {
        map_of_pairs(pairs.drop_last()).insert(pairs.last().0, pairs.last().1)
    }
}

/// `items` in the order they were read: taken off the back of a vector
/// holding them in reverse.
fn reversed<T>(v: Vec<T>) -> (r: Vec<T>)
    ensures
        r@ == v@.reverse(),
{
    let mut v = v;
    let ghost orig = v@;
    let mut r: Vec<T> = Vec::new();
    while v.len() > 0
        invariant
            v@.len() <= orig.len(),
            v@ == orig.take(v@.len() as int),
            r@ == orig.skip(v@.len() as int).reverse(),
        decreases v@.len(),
    {
        let ghost n = v@.len() as int;
        let ghost prev = v@;
        let x = v.pop().unwrap();
        proof {
            assert(prev[n - 1] == x);
            assert(orig[n - 1] == x);
            assert(orig.skip(n - 1).reverse() =~= orig.skip(n).reverse().push(x));
            assert(v@ =~= orig.take(n - 1));
        }
        r.push(x);
    }
    assert(orig.skip(0) =~= orig);
    r
}

impl<
    K: DekuReader<Ctx> + Eq + Hash,
    V: DekuReader<Ctx>,
    S: BuildHasher + Default,
    Ctx: Copy,
    P: Fn(&(K, V)) -> bool,
> DekuReader<(Limit<(K, V), P>, Ctx)> for HashMap<K, V, S> {
    open spec fn can_read(reader: Reader, ctx: (Limit<(K, V), P>, Ctx)) -> bool {
        <Vec<(K, V)> as DekuReader<(Limit<(K, V), P>, Ctx)>>::can_read(reader, ctx)
    }

    /// The pairs a `Vec` reads with the same limit and context, inserted in
    /// turn; with keys and hashers that behave as std's model says, the map
    /// is [`map_of_pairs`] of them.
    open spec fn reads(before: Reader, after: Reader, ctx: (Limit<(K, V), P>, Ctx), r: Result<Self, DekuError>) -> bool {
        exists|v: Result<Vec<(K, V)>, DekuError>|
            #[trigger] <Vec<(K, V)> as DekuReader<(Limit<(K, V), P>, Ctx)>>::reads(before, after, ctx, v)
                && match v {
                Ok(items) => r matches Ok(m) && (obeys_key_model::<K>() && builds_valid_hashers::<S>()
                    ==> m@ == map_of_pairs(items@)),
                Err(e) => r == Err::<HashMap<K, V, S>, DekuError>(e),
            }
    }

    fn from_reader_with_ctx(reader: &mut Reader, ctx: (Limit<(K, V), P>, Ctx)) -> (r: Result<Self, DekuError>) {
        let val = <Vec<(K, V)> as DekuReader<(Limit<(K, V), P>, Ctx)>>::from_reader_with_ctx(reader, ctx);
        let items = match val {
            Ok(items) => items,
            Err(e) => return Err(e),
        };
        let ghost all = items@;
        let mut rest = reversed(items);
        let mut map: HashMap<K, V, S> = HashMap::default();
        let ghost mut done: nat = 0;
        while rest.len() > 0
            invariant
                rest@ == all.skip(done as int).reverse(),
                done <= all.len(),
                obeys_key_model::<K>() && builds_valid_hashers::<S>() ==> map@ == map_of_pairs(
                    all.take(done as int),
                ),
            decreases rest@.len(),
        {
            let ghost before = rest@;
            let (k, v) = rest.pop().unwrap();
            proof {
                assert(before.len() == all.len() - done);
                assert(before[before.len() - 1] == all[done as int]);
                assert(all.take((done + 1) as int).drop_last() =~= all.take(done as int));
                done = done + 1;
                assert(rest@ =~= all.skip(done as int).reverse());
            }
            map.insert(k, v);
        }
        assert(all.take(done as int) =~= all);
        Ok(map)
    }
}

impl<K: DekuReader<()> + Eq + Hash, V: DekuReader<()>, S: BuildHasher + Default, P: Fn(&(K, V)) -> bool> DekuReader<
    Limit<(K, V), P>,
> for HashMap<K, V, S> {
    open spec fn can_read(reader: Reader, limit: Limit<(K, V), P>) -> bool {
        <HashMap<K, V, S> as DekuReader<(Limit<(K, V), P>, ())>>::can_read(reader, (limit, ()))
    }

    /// Read `K, V`s until the given limit from input for types which don't
    /// require context.
    open spec fn reads(before: Reader, after: Reader, limit: Limit<(K, V), P>, r: Result<Self, DekuError>) -> bool {
        <HashMap<K, V, S> as DekuReader<(Limit<(K, V), P>, ())>>::reads(before, after, (limit, ()), r)
    }

    fn from_reader_with_ctx(reader: &mut Reader, limit: Limit<(K, V), P>) -> (r: Result<Self, DekuError>) {
        <HashMap<K, V, S> as DekuReader<(Limit<(K, V), P>, ())>>::from_reader_with_ctx(reader, (limit, ()))
    }
}

impl<T: DekuReader<Ctx> + Eq + Hash, S: BuildHasher + Default, Ctx: Copy, P: Fn(&T) -> bool> DekuReader<
    (Limit<T, P>, Ctx),
> for HashSet<T, S> {
    open spec fn can_read(reader: Reader, ctx: (Limit<T, P>, Ctx)) -> bool {
        <Vec<T> as DekuReader<(Limit<T, P>, Ctx)>>::can_read(reader, ctx)
    }

    /// The items a `Vec` reads with the same limit and context, inserted;
    /// with keys and hashers that behave as std's model says, the set is the
    /// set of them.
    open spec fn reads(before: Reader, after: Reader, ctx: (Limit<T, P>, Ctx), r: Result<Self, DekuError>) -> bool {
        exists|v: Result<Vec<T>, DekuError>|
            #[trigger] <Vec<T> as DekuReader<(Limit<T, P>, Ctx)>>::reads(before, after, ctx, v) && match v {
                Ok(items) => r matches Ok(s) && (obeys_key_model::<T>() && builds_valid_hashers::<S>() ==> s@
                    == items@.to_set()),
                Err(e) => r == Err::<HashSet<T, S>, DekuError>(e),
            }
    }

    fn from_reader_with_ctx(reader: &mut Reader, ctx: (Limit<T, P>, Ctx)) -> (r: Result<Self, DekuError>) {
        let val = <Vec<T> as DekuReader<(Limit<T, P>, Ctx)>>::from_reader_with_ctx(reader, ctx);
        let items = match val {
            Ok(items) => items,
            Err(e) => return Err(e),
        };
        let ghost all = items@;
        let mut rest = reversed(items);
        let mut set: HashSet<T, S> = HashSet::default();
        let ghost mut done: nat = 0;
        while rest.len() > 0
            invariant
                rest@ == all.skip(done as int).reverse(),
                done <= all.len(),
                obeys_key_model::<T>() && builds_valid_hashers::<S>() ==> set@ == all.take(
                    done as int,
                ).to_set(),
            decreases rest@.len(),
        {
            let ghost before = rest@;
            let x = rest.pop().unwrap();
            proof {
                assert(before.len() == all.len() - done);
                assert(before[before.len() - 1] == all[done as int]);
                assert(all.take((done + 1) as int) =~= all.take(done as int).push(x));
                all.take(done as int).lemma_push_to_set_commute(x);
                done = done + 1;
                assert(rest@ =~= all.skip(done as int).reverse());
            }
            set.insert(x);
        }
        assert(all.take(done as int) =~= all);
        Ok(set)
    }
}

impl<T: DekuReader<()> + Eq + Hash, S: BuildHasher + Default, P: Fn(&T) -> bool> DekuReader<Limit<T, P>> for HashSet<
    T,
    S,
> {
    open spec fn can_read(reader: Reader, limit: Limit<T, P>) -> bool {
        <HashSet<T, S> as DekuReader<(Limit<T, P>, ())>>::can_read(reader, (limit, ()))
    }

    /// Read `T`s until the given limit from input for types which don't
    /// require context.
    open spec fn reads(before: Reader, after: Reader, limit: Limit<T, P>, r: Result<Self, DekuError>) -> bool {
        <HashSet<T, S> as DekuReader<(Limit<T, P>, ())>>::reads(before, after, (limit, ()), r)
    }

    fn from_reader_with_ctx(reader: &mut Reader, limit: Limit<T, P>) -> (r: Result<Self, DekuError>) {
        <HashSet<T, S> as DekuReader<(Limit<T, P>, ())>>::from_reader_with_ctx(reader, (limit, ()))
    }
}

} // verus!
