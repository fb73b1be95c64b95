use vstd::prelude::*;
use vstd::string::*;

use crate::text::{is_word, token_is};

verus! {

/// The number of tunable parameters.
pub const NUM_PARAMS: usize = 17;

/// The name of the parameter number `i`.
pub open spec fn spec_param_name(i: int) -> &'static str {
    if i == 0 {
        "root_pst"
    } else if i == 1 {
        "root_cpuct"
    } else if i == 2 {
        "cpuct"
    } else if i == 3 {
        "cpuct_var_weight"
    } else if i == 4 {
        "cpuct_var_scale"
    } else if i == 5 {
        "cpuct_var_warmup"
    } else if i == 6 {
        "cpuct_visits_scale"
    } else if i == 7 {
        "expl_tau"
    } else if i == 8 {
        "gini_base"
    } else if i == 9 {
        "gini_ln_multiplier"
    } else if i == 10 {
        "gini_min"
    } else if i == 11 {
        "tm_mtg"
    } else if i == 12 {
        "winning_pst_threshold"
    } else if i == 13 {
        "winning_pst_max"
    } else if i == 14 {
        "base_pst_adjustment"
    } else if i == 15 {
        "root_pst_adjustment"
    } else {
        "depth_pst_adjustment"
    }
}

/// The value that the parameter number `i` has until it is set, in
/// thousandths; `tm_mtg` is a plain number of moves.
pub open spec fn spec_param_default(i: int) -> i32 {
    if i == 0 {
        3640
    } else if i == 1 {
        624
    } else if i == 2 {
        422
    } else if i == 3 {
        808
    } else if i == 4 {
        278
    } else if i == 5 {
        10
    } else if i == 6 {
        36910
    } else if i == 7 {
        623
    } else if i == 8 {
        463
    } else if i == 9 {
        1567
    } else if i == 10 {
        2260
    } else if i == 11 {
        28
    } else if i == 12 {
        603
    } else if i == 13 {
        1615
    } else if i == 14 {
        128
    } else if i == 15 {
        324
    } else {
        1777
    }
}

/// The name of the parameter number `i`.
pub fn param_name(i: usize) -> (name: &'static str)
    requires
        i < NUM_PARAMS,
    ensures
        name == spec_param_name(i as int),
{
    if i == 0 {
        "root_pst"
    } else if i == 1 {
        "root_cpuct"
    } else if i == 2 {
        "cpuct"
    } else if i == 3 {
        "cpuct_var_weight"
    } else if i == 4 {
        "cpuct_var_scale"
    } else if i == 5 {
        "cpuct_var_warmup"
    } else if i == 6 {
        "cpuct_visits_scale"
    } else if i == 7 {
        "expl_tau"
    } else if i == 8 {
        "gini_base"
    } else if i == 9 {
        "gini_ln_multiplier"
    } else if i == 10 {
        "gini_min"
    } else if i == 11 {
        "tm_mtg"
    } else if i == 12 {
        "winning_pst_threshold"
    } else if i == 13 {
        "winning_pst_max"
    } else if i == 14 {
        "base_pst_adjustment"
    } else if i == 15 {
        "root_pst_adjustment"
    } else {
        "depth_pst_adjustment"
    }
}

/// The value that the parameter number `i` has until it is set.
pub fn param_default(i: usize) -> (value: i32)
    requires
        i < NUM_PARAMS,
    ensures
        value == spec_param_default(i as int),
{
    if i == 0 {
        3640
    } else if i == 1 {
        624
    } else if i == 2 {
        422
    } else if i == 3 {
        808
    } else if i == 4 {
        278
    } else if i == 5 {
        10
    } else if i == 6 {
        36910
    } else if i == 7 {
        623
    } else if i == 8 {
        463
    } else if i == 9 {
        1567
    } else if i == 10 {
        2260
    } else if i == 11 {
        28
    } else if i == 12 {
        603
    } else if i == 13 {
        1615
    } else if i == 14 {
        128
    } else if i == 15 {
        324
    } else {
        1777
    }
}

/// The number of the first parameter below `upto` with the name `name`;
/// `None` if none has it.
pub open spec fn param_index(name: Seq<u8>, upto: int) -> Option<int>
    decreases upto,
{
    if upto <= 0 {
        None
    } else {
        match param_index(name, upto - 1) {
            Some(i) => Some(i),
            None => if is_word(name, spec_param_name(upto - 1)) {
                Some(upto - 1)
            } else {
                None
            },
        }
    }
}

/// The tunable parameters of the search, by name. A value is a whole number,
/// as the option that sets it gives it: thousandths of the number that the
/// search works with, but for `tm_mtg`, which counts moves.
pub struct MctsParams {
    values: Vec<i32>,
}

impl View for MctsParams {
    type V = Seq<i32>;

    closed spec fn view(&self) -> Seq<i32> {
        self.values@
    }
}

impl Default for MctsParams {
    fn default() -> (p: MctsParams)
        ensures
            p@.len() == NUM_PARAMS,
            forall|i: int| 0 <= i < NUM_PARAMS ==> #[trigger] p@[i] == spec_param_default(i),
    {
        let mut values: Vec<i32> = Vec::new();
        let mut i: usize = 0;
        while i < NUM_PARAMS
            invariant
                i <= NUM_PARAMS,
                values@.len() == i,
                forall|j: int| 0 <= j < i ==> #[trigger] values@[j] == spec_param_default(j),
            decreases NUM_PARAMS - i,
        {
            values.push(param_default(i));
            i = i + 1;
        }
        MctsParams { values }
    }
}

impl MctsParams {
    #[verifier::type_invariant]
    closed spec fn inv(&self) -> bool {
        self.values@.len() == NUM_PARAMS
    }

    /// The value of the parameter number `i`.
    pub fn get(&self, i: usize) -> (value: i32)
        requires
            i < NUM_PARAMS,
        ensures
            self@.len() == NUM_PARAMS,
            value == self@[i as int],
    {
        proof {
            use_type_invariant(self);
        }
        self.values[i]
    }

    /// The number of the parameter with the given name.
    pub fn find(name: &[u8]) -> (r: Option<usize>)
        ensures
            match r {
                Some(i) => i < NUM_PARAMS && param_index(name@, NUM_PARAMS as int) == Some(
                    i as int,
                ),
                None => param_index(name@, NUM_PARAMS as int) is None,
            },
    {
        let mut i: usize = 0;
        while i < NUM_PARAMS
            invariant
                i <= NUM_PARAMS,
                param_index(name@, i as int) is None,
            decreases NUM_PARAMS - i,
        {
            if token_is(name, param_name(i)) {
                proof {
                    lemma_index_stays(name@, i + 1, NUM_PARAMS as int);
                }
                return Some(i);
            }
            i = i + 1;
        }
        None
    }

    /// Sets the parameter with the given name. Returns whether there is one.
    pub fn set(&mut self, name: &[u8], value: i32) -> (known: bool)
        ensures
            final(self)@.len() == NUM_PARAMS,
            old(self)@.len() == NUM_PARAMS,
            match param_index(name@, NUM_PARAMS as int) {
                Some(i) => known && final(self)@ == old(self)@.update(i, value),
                None => !known && final(self)@ == old(self)@,
            },
    {
        proof {
            use_type_invariant(&*self);
        }
        match MctsParams::find(name) {
            Some(i) => {
                self.values[i] = value;
                true
            },
            None => false,
        }
    }

    /// The number of moves that the time on the clock is meant to last for
    /// when the game does not say.
    pub fn tm_mtg(&self) -> (value: i32)
        ensures
            self@.len() == NUM_PARAMS,
            value == self@[11],
    {
        self.get(11)
    }
}

/// A parameter found among the first of them is found among all of them.
proof fn lemma_index_stays(name: Seq<u8>, found: int, upto: int)
    requires
        0 < found <= upto,
        param_index(name, found) is Some,
    ensures
        param_index(name, upto) == param_index(name, found),
    decreases upto - found,
{
    if found < upto {
        lemma_index_stays(name, found, upto - 1);
    }
}

} // verus!
