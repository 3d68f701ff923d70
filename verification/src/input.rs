use vstd::prelude::*;

verus! {

/// Which digit key counts as pressed, given the state of the keys 0 to 9 (index `d`
/// tells whether key `d` is pressed): the lowest pressed digit, or none.
pub fn first_pressed_numkey(pressed: &[bool; 10]) -> (r: Option<usize>)
    ensures
        match r {
            Some(n) => n < 10 && pressed@[n as int] && forall|j: int| 0 <= j < n ==> !pressed@[j],
            None => forall|j: int| 0 <= j < 10 ==> !pressed@[j],
        },
{
    let mut d: usize = 0;
    while d < 10
        invariant
            d <= 10,
            forall|j: int| 0 <= j < d ==> !pressed@[j],
        decreases 10 - d,
    {
        if pressed[d] {
            return Some(d);
        }
        d = d + 1;
    }
    None
}

} // verus!
