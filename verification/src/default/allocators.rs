//! An allocator that keeps every layer in memory, and the catalog of an
//! allocator that keeps every layer in a file of its own.

use crate::base::database::allocator::Allocator;
use crate::base::layer::Layer;
use crate::default::names::{format_name, name_of, number_of, parse_name};
use crate::errors::Error;
use vstd::prelude::*;

verus! {

/// Keeps the layers in memory only: nothing is stored when a stack starts,
/// every new layer is backed by an empty buffer, and dropping layers needs
/// no work. For caches and tests.
pub struct SkdbMemAlloc;

impl<'l> Allocator<'l> for SkdbMemAlloc {
    fn load_layers(&self) -> (r: Result<Vec<Layer<'l>>, Error>)
        ensures
            r matches Ok(layers) && layers@.len() == 0,
    {
        Ok(Vec::new())
    }

    fn add_layer(&mut self) -> (r: Result<Layer<'l>, Error>)
        ensures
            r matches Ok(layer) && layer@.stream == Seq::<u8>::empty(),
    {
        Ok(Layer::new(Vec::new()))
    }

    fn drop_top_layer(&mut self) -> (r: Result<(), Error>)
        ensures
            r is Ok,
    {
        Ok(())
    }

    fn rebase(&mut self, top_layer: usize) -> (r: Result<(), Error>)
        ensures
            r is Ok,
    {
        Ok(())
    }
}


/// The catalog of a directory that holds one file for each layer, named by
/// a number in decimal digits; the files stack in the order of their
/// numbers. The catalog decides which files make up the stack, what a new
/// file is called and which files a rebase removes and renames. Touching
/// the files is left to its user.
pub struct SkdbDirAlloc {
    /// The directory.
    pub path: String,
    /// The names of the layer files, bottom layer first.
    pub layers: Vec<Vec<u8>>,
    /// The number that the next new layer file is named by.
    pub cursor: u32,
}

/// What a rebase does to the files of a directory.
pub struct RebasePlan {
    /// The files to remove.
    pub remove: Vec<Vec<u8>>,
    /// The files to rename, each with its new name, in the order in which
    /// they are to be renamed.
    pub rename: Vec<(Vec<u8>, Vec<u8>)>,
}

/// The names in a list.
pub open spec fn named(v: Seq<Vec<u8>>) -> Seq<Seq<u8>> {
    Seq::new(v.len(), |i: int| v[i]@)
}

/// The names of a list that stand for a number, in the order of the list.
pub open spec fn numbered(names: Seq<Seq<u8>>) -> Seq<Seq<u8>>
    decreases names.len(),
{
    if names.len() == 0 {
        Seq::empty()
    } else {
        let rest = numbered(names.drop_last());
        if number_of(names.last()) is Some {
            rest.push(names.last())
        } else {
            rest
        }
    }
}

/// Every name stands for a number, and the numbers do not descend.
pub open spec fn in_order(names: Seq<Seq<u8>>) -> bool {
    &&& forall|i: int| 0 <= i < names.len() ==> number_of(#[trigger] names[i]) is Some
    &&& forall|i: int, j: int|
        0 <= i < j < names.len() ==> number_of(#[trigger] names[i]).unwrap() <= number_of(
            #[trigger] names[j],
        ).unwrap()
}

/// A list with one more item in it holds that item once more and everything
/// else as often as before.
proof fn lemma_insert_multiset(s: Seq<Seq<u8>>, p: int, x: Seq<u8>)
    requires
        0 <= p <= s.len(),
    ensures
        s.insert(p, x).to_multiset() == s.to_multiset().insert(x),
{
    let t = s.insert(p, x);
    assert(t.remove(p) == s);
    vstd::seq_lib::to_multiset_remove(t, p);
    t.to_multiset_ensures();
    assert(t[p] == x);
    assert(t.contains(x));
    assert(t.to_multiset() =~= s.to_multiset().insert(x));
}

/// A copy of a name.
fn copy_name(name: &Vec<u8>) -> (r: Vec<u8>)
    ensures
        r@ == name@,
{
    let mut r: Vec<u8> = Vec::new();
    r.extend_from_slice(name.as_slice());
    assert(r@ =~= name@);
    r
}

impl SkdbDirAlloc {
    /// The catalog of an empty directory.
    pub fn new(path: String) -> (r: Self)
        ensures
            r.path == path,
            r.layers@.len() == 0,
            r.cursor == 0,
    {
        SkdbDirAlloc { path, layers: Vec::new(), cursor: 0 }
    }

    /// The catalog of a directory that holds the files `names`. The files
    /// whose names stand for a number are the layers, in the order of their
    /// numbers; all other files are passed over. The next new layer gets the
    /// number behind the highest one in use, or zero if there is no layer.
    /// The highest 32-bit number is not in use as a name.
    pub fn load(path: String, names: &Vec<Vec<u8>>) -> (r: Self)
        requires
            forall|i: int| 0 <= i < names.len() ==> number_of(#[trigger] names[i]@) != Some(u32::MAX),
        ensures
            r.path == path,
            in_order(named(r.layers@)),
            named(r.layers@).to_multiset() == numbered(named(names@)).to_multiset(),
            r.cursor == if r.layers@.len() == 0 {
                0
            } else {
                number_of(r.layers@.last()@).unwrap() + 1
            },
    {
        let mut numbers: Vec<u32> = Vec::new();
        let mut layers: Vec<Vec<u8>> = Vec::new();
        let mut k: usize = 0;
        let ghost all = named(names@);
        proof {
            assert(all.take(0) == Seq::<Seq<u8>>::empty());
            assert(named(layers@) == Seq::<Seq<u8>>::empty());
        }
        while k < names.len()
            invariant
                k <= names.len(),
                all == named(names@),
                forall|i: int|
                    0 <= i < names.len() ==> number_of(#[trigger] names[i]@) != Some(u32::MAX),
                numbers.len() == layers.len(),
                forall|i: int|
                    0 <= i < layers.len() ==> number_of(#[trigger] layers[i]@) == Some(numbers[i]),
                forall|i: int| 0 <= i < numbers.len() ==> (#[trigger] numbers[i]) < u32::MAX,
                forall|i: int, j: int|
                    0 <= i < j < numbers.len() ==> (#[trigger] numbers[i]) <= (
                    #[trigger] numbers[j]),
                named(layers@).to_multiset() == numbered(all.take(k as int)).to_multiset(),
            decreases names.len() - k,
        {
            let name = &names[k];
            proof {
                assert(all.take(k + 1).drop_last() == all.take(k as int));
                assert(all.take(k + 1).last() == name@);
                assert(all[k as int] == names[k as int]@);
            }
            match parse_name(name.as_slice()) {
                Some(n) => {
                    let mut p: usize = 0;
                    while p < numbers.len() && numbers[p] <= n
                        invariant
                            p <= numbers.len(),
                            forall|i: int| 0 <= i < p ==> (#[trigger] numbers[i]) <= n,
                        decreases numbers.len() - p,
                    {
                        p += 1;
                    }
                    let ghost before = layers@;
                    let ghost numbers_before = numbers@;
                    numbers.insert(p, n);
                    layers.insert(p, copy_name(name));
                    proof {
                        assert(named(layers@) == named(before).insert(p as int, name@));
                        lemma_insert_multiset(named(before), p as int, name@);
                        vstd::seq_lib::to_multiset_build(numbered(all.take(k as int)), name@);
                        assert forall|i: int, j: int| 0 <= i < j < numbers.len() implies (
                        #[trigger] numbers[i]) <= (#[trigger] numbers[j]) by {
                            let bi = if i < p { i } else { i - 1 };
                            let bj = if j < p { j } else { j - 1 };
                            if i != p && j != p {
                                assert(numbers_before[bi] <= numbers_before[bj]);
                            } else if i == p {
                                assert(numbers_before[p as int] <= numbers_before[bj]);
                            } else {
                                assert(numbers_before[bi] <= n);
                            }
                        }
                        assert forall|i: int| 0 <= i < layers.len() implies number_of(
                            #[trigger] layers[i]@,
                        ) == Some(numbers[i]) by {
                            if i < p {
                                assert(layers[i] == before[i]);
                            } else if i > p {
                                assert(layers[i] == before[i - 1]);
                            }
                        }
                    }
                },
                None => {},
            }
            k += 1;
        }
        proof {
            assert(all.take(names.len() as int) == all);
            assert forall|i: int| 0 <= i < layers.len() implies number_of(
                #[trigger] named(layers@)[i],
            ) is Some by {
                assert(number_of(layers[i]@) == Some(numbers[i]));
            }
            assert forall|i: int, j: int| 0 <= i < j < layers.len() implies number_of(
                #[trigger] named(layers@)[i],
            ).unwrap() <= number_of(#[trigger] named(layers@)[j]).unwrap() by {
                assert(number_of(layers[i]@) == Some(numbers[i]));
                assert(number_of(layers[j]@) == Some(numbers[j]));
                assert(numbers[i] <= numbers[j]);
            }
        }
        let cursor: u32 = if numbers.len() == 0 {
            0
        } else {
            numbers[numbers.len() - 1] + 1
        };
        SkdbDirAlloc { path, layers, cursor }
    }

    /// Enters a new layer on top and gives the name of its file: the decimal
    /// digits of the cursor, which moves on by one.
    pub fn add_layer(&mut self) -> (name: Vec<u8>)
        requires
            old(self).cursor < u32::MAX,
        ensures
            name@ == name_of(old(self).cursor as nat),
            final(self).path == old(self).path,
            final(self).cursor == old(self).cursor + 1,
            named(final(self).layers@) == named(old(self).layers@).push(name@),
    {
        let name = format_name(self.cursor as u64);
        let ghost before = self.layers@;
        self.layers.push(copy_name(&name));
        self.cursor = self.cursor + 1;
        proof {
            assert(named(self.layers@) == named(before).push(name@));
        }
        name
    }

    /// Takes the topmost layer out and gives the name of its file, which is
    /// to be removed; the cursor moves back by one. With no layer entered,
    /// nothing changes.
    pub fn drop_top_layer(&mut self) -> (name: Option<Vec<u8>>)
        requires
            old(self).layers@.len() > 0 ==> old(self).cursor > 0,
        ensures
            final(self).path == old(self).path,
            match name {
                Some(n) => {
                    &&& old(self).layers@.len() > 0
                    &&& n@ == old(self).layers@.last()@
                    &&& named(final(self).layers@) == named(old(self).layers@).drop_last()
                    &&& final(self).cursor == old(self).cursor - 1
                },
                None => {
                    &&& old(self).layers@.len() == 0
                    &&& final(self).layers@ == old(self).layers@
                    &&& final(self).cursor == old(self).cursor
                },
            },
    {
        let ghost before = self.layers@;
        match self.layers.pop() {
            Some(name) => {
                self.cursor = self.cursor - 1;
                proof {
                    assert(before.len() > 0);
                    assert(name == before[before.len() - 1]);
                    assert(self.layers@ == before.drop_last());
                    assert(named(self.layers@) == named(before).drop_last());
                }
                Some(name)
            },
            None => None,
        }
    }

    /// Takes the layers under index `top_layer` out and moves the others
    /// down to start at index 0. The plan lists the files of the layers
    /// taken out, which are to be removed, and for each layer that stays its
    /// file and the new name of the file: the decimal digits of the layer's
    /// new index. The cursor stays where it is.
    pub fn rebase(&mut self, top_layer: usize) -> (plan: RebasePlan)
        requires
            top_layer <= old(self).layers@.len(),
        ensures
            final(self).path == old(self).path,
            final(self).cursor == old(self).cursor,
            named(plan.remove@) == named(old(self).layers@).take(top_layer as int),
            plan.rename@.len() == old(self).layers@.len() - top_layer,
            final(self).layers@.len() == old(self).layers@.len() - top_layer,
            forall|i: int|
                0 <= i < plan.rename@.len() ==> (#[trigger] plan.rename@[i]).0@ == old(
                    self,
                ).layers@[top_layer + i]@ && plan.rename@[i].1@ == name_of(i as nat),
            forall|i: int|
                0 <= i < final(self).layers@.len() ==> (#[trigger] final(self).layers@[i])@
                    == name_of(i as nat),
    {
        let ghost before = self.layers@;
        let mut top = self.layers.split_off(top_layer);
        let mut remove: Vec<Vec<u8>> = Vec::new();
        core::mem::swap(&mut remove, &mut self.layers);
        proof {
            assert(named(remove@) == named(before).take(top_layer as int));
        }
        let mut rename: Vec<(Vec<u8>, Vec<u8>)> = Vec::new();
        let mut i: usize = 0;
        while i < top.len()
            invariant
                i <= top.len(),
                top@ == before.subrange(top_layer as int, before.len() as int),
                top_layer <= before.len(),
                self.layers@.len() == i,
                rename@.len() == i,
                self.path == old(self).path,
                self.cursor == old(self).cursor,
                forall|j: int|
                    0 <= j < i ==> (#[trigger] rename@[j]).0@ == before[top_layer + j]@
                        && rename@[j].1@ == name_of(j as nat),
                forall|j: int| 0 <= j < i ==> (#[trigger] self.layers@[j])@ == name_of(j as nat),
            decreases top.len() - i,
        {
            let name = format_name(i as u64);
            let from = copy_name(&top[i]);
            let ghost renamed = rename@;
            let ghost entered = self.layers@;
            self.layers.push(copy_name(&name));
            rename.push((from, name));
            proof {
                assert forall|j: int| 0 <= j < i + 1 implies (#[trigger] rename@[j]).0@
                    == before[top_layer + j]@ && rename@[j].1@ == name_of(j as nat) by {
                    if j < i {
                        assert(rename@[j] == renamed[j]);
                    }
                }
                assert forall|j: int| 0 <= j < i + 1 implies (#[trigger] self.layers@[j])@
                    == name_of(j as nat) by {
                    if j < i {
                        assert(self.layers@[j] == entered[j]);
                    }
                }
            }
            i += 1;
        }
        RebasePlan { remove, rename }
    }
}

} // verus!
