//! A lookup table from names to the packages that bear or provide them,
//! built once for a directory and asked for every specifier.

use vstd::prelude::*;
use vstd::utf8::encode_utf8;
use crate::package::{Package, Specifier};
use crate::resolve::{lemma_satisfiers, named_somewhere, satisfiers, satisfies};

verus! {

/// The digests are the numbers below this prime, the greatest below 2^32.
pub const DIGEST_BOUND: u64 = 4294967291;

/// The digest of the first `count` bytes: a number below `DIGEST_BOUND` that
/// depends on each of them.
pub open spec fn digest(bytes: Seq<u8>, count: nat) -> u64
    decreases count,
{
    if count == 0 {
        0
    } else {
        ((digest(bytes, (count - 1) as nat) * 31 + bytes[count - 1]) % (DIGEST_BOUND as int)) as u64
    }
}

/// The digest of a name: that of the bytes of its text.
pub open spec fn name_digest(name: Seq<char>) -> u64 {
    digest(encode_utf8(name), encode_utf8(name).len())
}

/// The bucket that a name falls into, of `buckets` many.
pub open spec fn bucket_of(name: Seq<char>, buckets: int) -> int {
    name_digest(name) as int % buckets
}

/// Each number in the sequence is greater than those before it.
pub open spec fn ascending(numbers: Seq<usize>) -> bool {
    forall|j: int, k: int| 0 <= j < k < numbers.len() ==> numbers[j] < numbers[k]
}

/// Two ascending sequences that hold the same numbers are the same.
pub proof fn lemma_ascending_same(first: Seq<usize>, second: Seq<usize>)
    requires
        ascending(first),
        ascending(second),
        forall|value: usize| first.contains(value) <==> second.contains(value),
    ensures
        first == second,
    decreases first.len(),
{
    if first.len() == 0 {
        if second.len() > 0 {
            assert(second.contains(second[0]));
        }
        assert(first =~= second);
    } else {
        assert(first.contains(first.last()));
        assert(second.contains(first.last()));
        assert(second.len() > 0);
        assert(second.contains(second.last()));
        assert(first.contains(second.last()));
        let in_second = choose|k: int| 0 <= k < second.len() && second[k] == first.last();
        let in_first = choose|k: int| 0 <= k < first.len() && first[k] == second.last();
        assert(first.last() == second.last());
        let head = first.drop_last();
        let body = second.drop_last();
        assert forall|value: usize| head.contains(value) <==> body.contains(value) by {
            if head.contains(value) {
                let k = choose|k: int| 0 <= k < head.len() && head[k] == value;
                assert(first[k] == value);
                assert(first.contains(value));
                let j = choose|j: int| 0 <= j < second.len() && second[j] == value;
                assert(j < second.len() - 1);
                assert(body[j] == value);
            }
            if body.contains(value) {
                let k = choose|k: int| 0 <= k < body.len() && body[k] == value;
                assert(second[k] == value);
                assert(second.contains(value));
                let j = choose|j: int| 0 <= j < first.len() && first[j] == value;
                assert(j < first.len() - 1);
                assert(head[j] == value);
            }
        }
        lemma_ascending_same(head, body);
        assert(first =~= head.push(first.last()));
        assert(second =~= body.push(second.last()));
    }
}

/// The digest of a name.
fn digest_of(name: &str) -> (value: u64)
    ensures
        value == name_digest(name@),
{
    let bytes = name.as_bytes();
    let mut value: u64 = 0;
    let mut i: usize = 0;
    while i < bytes.len()
        invariant
            i <= bytes@.len(),
            bytes@ == encode_utf8(name@),
            value == digest(bytes@, i as nat),
            value < DIGEST_BOUND,
        decreases bytes@.len() - i,
    {
        let byte: u64 = bytes[i] as u64;
        value = (value * 31 + byte) % DIGEST_BOUND;
        i += 1;
    }
    value
}

/// Where to look for the packages that satisfy a specifier: for each bucket
/// of names, the packages that bear a name of the bucket, and the packages
/// that provide one.
pub struct NameTable {
    named: Vec<Vec<usize>>,
    providing: Vec<Vec<usize>>,
}

/// The lists are ascending lists of package indices.
pub open spec fn lists_of_packages(lists: Seq<Vec<usize>>, packages: int) -> bool {
    forall|bucket: int|
        0 <= bucket < lists.len() ==> ascending((#[trigger] lists[bucket])@) && forall|k: int|
            0 <= k < lists[bucket]@.len() ==> (#[trigger] lists[bucket]@[k]) < packages
}

impl NameTable {
    /// The table is that of these packages: each package is listed under the
    /// bucket of its name, and under the bucket of each name it provides.
    pub closed spec fn describes(&self, packages: Seq<Package>) -> bool {
        &&& self.named@.len() > 0
        &&& self.providing@.len() == self.named@.len()
        &&& lists_of_packages(self.named@, packages.len() as int)
        &&& lists_of_packages(self.providing@, packages.len() as int)
        &&& forall|i: int|
            0 <= i < packages.len() ==> self.named@[bucket_of(
                (#[trigger] packages[i]).name@,
                self.named@.len() as int,
            )]@.contains(i as usize)
        &&& forall|i: int, k: int|
            0 <= i < packages.len() && 0 <= k < packages[i].provides@.len()
                ==> self.providing@[bucket_of(
                (#[trigger] packages[i].provides@[k]).name@,
                self.named@.len() as int,
            )]@.contains(i as usize)
    }

    /// Builds the table of the installed packages in one pass over them.
    pub fn new(packages: &Vec<Package>) -> (table: NameTable)
        ensures
            table.describes(packages@),
    {
        let buckets: usize = if packages.len() == 0 {
            1
        } else {
            packages.len()
        };
        let mut named: Vec<Vec<usize>> = Vec::new();
        let mut providing: Vec<Vec<usize>> = Vec::new();
        let mut bucket: usize = 0;
        while bucket < buckets
            invariant
                bucket <= buckets,
                named@.len() == bucket,
                providing@.len() == bucket,
                forall|b: int| 0 <= b < bucket ==> (#[trigger] named@[b])@.len() == 0,
                forall|b: int| 0 <= b < bucket ==> (#[trigger] providing@[b])@.len() == 0,
            decreases buckets - bucket,
        {
            named.push(Vec::new());
            providing.push(Vec::new());
            bucket += 1;
        }
        let mut i: usize = 0;
        while i < packages.len()
            invariant
                buckets > 0,
                i <= packages@.len(),
                named@.len() == buckets,
                providing@.len() == buckets,
                lists_of_packages(named@, i as int),
                lists_of_packages(providing@, i as int),
                forall|j: int|
                    0 <= j < i ==> named@[bucket_of(
                        (#[trigger] packages@[j]).name@,
                        buckets as int,
                    )]@.contains(j as usize),
                forall|j: int, k: int|
                    0 <= j < i && 0 <= k < packages@[j].provides@.len() ==> providing@[bucket_of(
                        (#[trigger] packages@[j].provides@[k]).name@,
                        buckets as int,
                    )]@.contains(j as usize),
            decreases packages@.len() - i,
        {
            let own = (digest_of(packages[i].name.as_str()) % (buckets as u64)) as usize;
            let ghost named_before = named@;
            named[own].push(i);
            proof {
                let list = named@[own as int]@;
                assert(list[list.len() - 1] == i);
                assert(list.contains(i));
                assert forall|j: int| 0 <= j < i + 1 implies named@[bucket_of(
                    (#[trigger] packages@[j]).name@,
                    buckets as int,
                )]@.contains(j as usize) by {
                    if j < i {
                        let b = bucket_of(packages@[j].name@, buckets as int);
                        let before = named_before[b]@;
                        let k = choose|k: int| 0 <= k < before.len() && before[k] == j as usize;
                        assert(named@[b]@[k] == j as usize);
                    }
                }
            }
            let provides = &packages[i].provides;
            let mut k: usize = 0;
            while k < provides.len()
                invariant
                    buckets > 0,
                    i < packages@.len(),
                    provides@ == packages@[i as int].provides@,
                    k <= provides@.len(),
                    named@.len() == buckets,
                    providing@.len() == buckets,
                    lists_of_packages(providing@, i + 1),
                    forall|j: int, c: int|
                        0 <= j < i && 0 <= c < packages@[j].provides@.len()
                            ==> providing@[bucket_of(
                            (#[trigger] packages@[j].provides@[c]).name@,
                            buckets as int,
                        )]@.contains(j as usize),
                    forall|c: int|
                        0 <= c < k ==> providing@[bucket_of(
                            (#[trigger] provides@[c]).name@,
                            buckets as int,
                        )]@.contains(i),
                decreases provides@.len() - k,
            {
                let b = (digest_of(provides[k].name.as_str()) % (buckets as u64)) as usize;
                let ghost before = providing@;
                let listed = providing[b].len() > 0 && providing[b][providing[b].len() - 1] == i;
                if !listed {
                    providing[b].push(i);
                    proof {
                        let list = providing@[b as int]@;
                        assert(list[list.len() - 1] == i);
                        assert forall|x: int, y: int| 0 <= x < y < list.len() implies list[x]
                            < list[y] by {
                            if y == list.len() - 1 {
                                assert(before[b as int]@[x] <= i);
                                if x == list.len() - 2 {
                                } else {
                                    assert(before[b as int]@[x] < before[b as int]@[list.len()
                                        - 2]);
                                }
                            } else {
                                assert(before[b as int]@[x] < before[b as int]@[y]);
                            }
                        }
                    }
                }
                proof {
                    let list = providing@[b as int]@;
                    assert(list[list.len() - 1] == i);
                    assert(list.contains(i));
                    assert forall|j: int, c: int|
                        0 <= j < i && 0 <= c < packages@[j].provides@.len()
                            implies providing@[bucket_of(
                        (#[trigger] packages@[j].provides@[c]).name@,
                        buckets as int,
                    )]@.contains(j as usize) by {
                        let at = bucket_of(packages@[j].provides@[c].name@, buckets as int);
                        let old_list = before[at]@;
                        let p = choose|p: int| 0 <= p < old_list.len() && old_list[p] == j as usize;
                        assert(providing@[at]@[p] == j as usize);
                    }
                    assert forall|c: int| 0 <= c < k + 1 implies providing@[bucket_of(
                        (#[trigger] provides@[c]).name@,
                        buckets as int,
                    )]@.contains(i) by {
                        if c < k {
                            let at = bucket_of(provides@[c].name@, buckets as int);
                            let old_list = before[at]@;
                            let p = choose|p: int| 0 <= p < old_list.len() && old_list[p] == i;
                            assert(providing@[at]@[p] == i);
                        }
                    }
                }
                k += 1;
            }
            i += 1;
        }
        NameTable { named, providing }
    }

    /// The installed packages that satisfy a dependency specifier, by index,
    /// looked up in the table: what `resolve` finds by going through all of
    /// them.
    pub fn resolve(&self, specifier: &Specifier, packages: &Vec<Package>) -> (targets: Vec<usize>)
        requires
            self.describes(packages@),
        ensures
            targets@ == satisfiers(specifier, packages@, packages@.len()),
    {
        let buckets = self.named.len();
        let bucket = (digest_of(specifier.name.as_str()) % (buckets as u64)) as usize;
        let literal = pick(&self.named[bucket], specifier, packages, true);
        proof {
            assert(packages@.len() == packages.len());
            lemma_satisfiers(specifier, packages@, packages@.len());
        }
        if literal.len() > 0 {
            proof {
                assert(literal@.contains(literal@[0]));
                assert(specifier.names(&packages@[literal@[0] as int]));
                assert(named_somewhere(specifier, packages@));
                let all = satisfiers(specifier, packages@, packages@.len());
                assert forall|value: usize| literal@.contains(value) <==> all.contains(value) by {
                    if all.contains(value) {
                        let k = choose|k: int| 0 <= k < all.len() && all[k] == value;
                        assert(all[k] < packages@.len());
                        assert(satisfies(specifier, packages@, value as int));
                        assert(self.named@[bucket as int]@.contains(value));
                    }
                    if literal@.contains(value) {
                        let k = choose|k: int| 0 <= k < literal@.len() && literal@[k] == value;
                        assert(literal@[k] < packages@.len());
                        assert(satisfies(specifier, packages@, value as int));
                    }
                }
                lemma_ascending_same(literal@, all);
            }
            literal
        } else {
            let provided = pick(&self.providing[bucket], specifier, packages, false);
            proof {
                assert forall|i: int| 0 <= i < packages@.len() implies !specifier.names(
                    &#[trigger] packages@[i],
                ) by {
                    if specifier.names(&packages@[i]) {
                        assert(self.named@[bucket as int]@.contains(i as usize));
                        assert(literal@.contains(i as usize));
                    }
                }
                assert(!named_somewhere(specifier, packages@));
                let all = satisfiers(specifier, packages@, packages@.len());
                assert forall|value: usize| provided@.contains(value) <==> all.contains(value) by {
                    if all.contains(value) {
                        let k = choose|k: int| 0 <= k < all.len() && all[k] == value;
                        assert(all[k] < packages@.len());
                        assert(satisfies(specifier, packages@, value as int));
                        let c = choose|c: int|
                            0 <= c < packages@[value as int].provides.len() && specifier.matches(
                                &#[trigger] packages@[value as int].provides[c],
                            );
                        assert(packages@[value as int].provides@[c].name@ == specifier.name@);
                        assert(self.providing@[bucket as int]@.contains(value));
                    }
                    if provided@.contains(value) {
                        let k = choose|k: int| 0 <= k < provided@.len() && provided@[k] == value;
                        assert(provided@[k] < packages@.len());
                        assert(satisfies(specifier, packages@, value as int));
                    }
                }
                lemma_ascending_same(provided@, all);
            }
            provided
        }
    }
}

/// Of the candidates, those that the specifier names, or those that provide
/// what it asks for.
fn pick(candidates: &Vec<usize>, specifier: &Specifier, packages: &Vec<Package>, by_name: bool) -> (picked:
    Vec<usize>)
    requires
        ascending(candidates@),
        forall|k: int| 0 <= k < candidates@.len() ==> (#[trigger] candidates@[k]) < packages@.len(),
    ensures
        ascending(picked@),
        forall|k: int| 0 <= k < picked@.len() ==> (#[trigger] picked@[k]) < packages@.len(),
        forall|value: usize|
            picked@.contains(value) <==> candidates@.contains(value) && if by_name {
                specifier.names(&packages@[value as int])
            } else {
                specifier.provided_by(&packages@[value as int])
            },
{
    let mut picked: Vec<usize> = Vec::new();
    let mut k: usize = 0;
    while k < candidates.len()
        invariant
            k <= candidates@.len(),
            ascending(candidates@),
            forall|j: int|
                0 <= j < candidates@.len() ==> (#[trigger] candidates@[j]) < packages@.len(),
            ascending(picked@),
            forall|j: int| 0 <= j < picked@.len() ==> (#[trigger] picked@[j]) < packages@.len(),
            forall|j: int|
                0 <= j < picked@.len() && k < candidates@.len() ==> (#[trigger] picked@[j])
                    < candidates@[k as int],
            forall|value: usize|
                picked@.contains(value) <==> (exists|j: int|
                    0 <= j < k && #[trigger] candidates@[j] == value) && if by_name {
                    specifier.names(&packages@[value as int])
                } else {
                    specifier.provided_by(&packages@[value as int])
                },
        decreases candidates@.len() - k,
    {
        let candidate = candidates[k];
        let fits = if by_name {
            specifier.is_named_by(&packages[candidate])
        } else {
            specifier.is_provided_by(&packages[candidate])
        };
        let ghost before = picked@;
        if fits {
            picked.push(candidate);
        }
        proof {
            assert forall|j: int|
                0 <= j < picked@.len() && k + 1 < candidates@.len() implies (#[trigger] picked@[j])
                < candidates@[k + 1] by {
                assert(candidates@[k as int] < candidates@[k + 1]);
                if j < before.len() {
                    assert(picked@[j] == before[j]);
                }
            }
            assert forall|value: usize|
                picked@.contains(value) <==> (exists|j: int|
                    0 <= j < k + 1 && #[trigger] candidates@[j] == value) && if by_name {
                    specifier.names(&packages@[value as int])
                } else {
                    specifier.provided_by(&packages@[value as int])
                } by {
                if picked@.contains(value) {
                    let j = choose|j: int| 0 <= j < picked@.len() && picked@[j] == value;
                    if j < before.len() {
                        assert(before[j] == value);
                        assert(before.contains(value));
                        let c = choose|c: int| 0 <= c < k && #[trigger] candidates@[c] == value;
                        assert(0 <= c < k + 1 && candidates@[c] == value);
                    } else {
                        assert(candidates@[k as int] == value);
                    }
                }
                if exists|j: int| 0 <= j < k + 1 && #[trigger] candidates@[j] == value {
                    let c = choose|c: int| 0 <= c < k + 1 && #[trigger] candidates@[c] == value;
                    if c < k {
                        if before.contains(value) {
                            let j = choose|j: int| 0 <= j < before.len() && before[j] == value;
                            assert(picked@[j] == value);
                        }
                    } else if fits {
                        assert(picked@[before.len() as int] == value);
                    }
                }
            }
        }
        k += 1;
    }
    proof {
        assert forall|value: usize|
            picked@.contains(value) <==> candidates@.contains(value) && if by_name {
                specifier.names(&packages@[value as int])
            } else {
                specifier.provided_by(&packages@[value as int])
            } by {
            if candidates@.contains(value) {
                let j = choose|j: int| 0 <= j < candidates@.len() && candidates@[j] == value;
                assert(0 <= j < k && candidates@[j] == value);
            }
        }
    }
    picked
}

} // verus!
