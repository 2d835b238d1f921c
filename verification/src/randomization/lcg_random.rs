use vstd::prelude::*;
use crate::sorting::quick::lemma_swap_multiset;

verus! {

broadcast use vstd::seq_lib::group_to_multiset_ensures, vstd::multiset::group_multiset_axioms;

/// One step of the linear congruence generator, with the GLIBC (GNU C
/// Library) parameters.
pub open spec fn lcg_step(x: int) -> int {
    (1103515245 * x + 12345) % 2147483648
}

/// Relies on std::time::SystemTime::now and Duration::subsec_nanos:
/// the sub-second part of a clock reading is under one billion
/// nanoseconds.
#[verifier::external_body]
fn time_seed() -> (r: u64)
    ensures
        r < 1000000000,
{
    std::time::SystemTime::now().duration_since(std::time::UNIX_EPOCH).map(
        |d| d.subsec_nanos() as u64,
    ).unwrap_or(0)
}

/// Generate pseudo random numbers of somewhat even distribution with a
/// linear congruence generator, seeded from the clock. This can be
/// useful when testing algorithms on random input, or for scrambling
/// lists, such as when preparing for quicksort. The recurrence
/// relation is `x = (1103515245 * x + 12345) % 2147483648`.
///
/// Do note that this generator is *NOT* cryptographically secure.
pub fn lcg_generate(size: usize) -> (r: Vec<u32>)
    ensures
        r@.len() == size,
        forall|i: int| 0 <= i < size ==> (#[trigger] r@[i]) < 2147483648,
        forall|i: int| 0 <= i < size - 1 ==> r@[i + 1] == lcg_step(#[trigger] r@[i] as int),
{
    let mut random_list: Vec<u32> = Vec::new();

    // Seed the linear congruence generator with the current system
    // time; this is not cryptographically secure, but nothing here
    // needs it to be.
    let mut x: u64 = time_seed();

    // Run the linear congruence generator
    let mut count: usize = 0;
    while count < size
        invariant
            count <= size,
            random_list@.len() == count,
            x < 2147483648 || (count == 0 && x < 1000000000),
            forall|i: int| 0 <= i < count ==> (#[trigger] random_list@[i]) < 2147483648,
            forall|i: int|
                0 <= i < count - 1 ==> random_list@[i + 1] == lcg_step(
                    #[trigger] random_list@[i] as int,
                ),
            count > 0 ==> x == random_list@[count - 1],
        decreases size - count,
    {
        x = (1103515245 * x + 12345) % 2147483648;
        random_list.push(x as u32);
        count += 1;
    }

    random_list
}

/// Rearranges the vector with indices drawn from the linear
/// congruence generator: the result holds exactly the elements it
/// started with.
pub fn shuffle_list<T: Copy>(a: &mut Vec<T>)
    ensures
        final(a)@.len() == old(a)@.len(),
        final(a)@.to_multiset() == old(a)@.to_multiset(),
{
    let n = a.len();
    if n <= 1 {
        return ;
    }
    let mut x: u64 = time_seed();
    let mut i: usize = n - 1;
    while i > 0
        invariant
            i < n,
            n == a@.len(),
            a@.to_multiset() == old(a)@.to_multiset(),
            x < 2147483648 || x < 1000000000,
        decreases i,
    {
        x = (1103515245 * x + 12345) % 2147483648;
        let r = (x as usize) % (i + 1);
        let ghost before = a@;
        if r != i {
            let t = a[i];
            let vi = a[r];
            a[i] = vi;
            a[r] = t;
            proof {
                assert(a@ =~= before.update(i as int, before[r as int]).update(
                    r as int,
                    before[i as int],
                ));
                lemma_swap_multiset(before, i as int, r as int);
            }
        }
        i -= 1;
    }
}

} // verus!
