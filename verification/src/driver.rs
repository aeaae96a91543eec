use vstd::prelude::*;

use crate::errors::AtmError;
use crate::generator::{sequence_at, SequenceGenerator};
use crate::planner::{pow_clamped_u128, space_size};

verus! {

/// Thin orchestration over the sequence generator: pulls sequences in
/// enumeration order and stops early after `max_count` of them, or at
/// natural exhaustion of the space, whichever comes first.  The caller
/// encodes each yielded sequence through the external encoder and feeds
/// the resulting artifact to the archive writer.
#[derive(Debug)]
pub struct GenerationDriver {
    /// The enumerator this driver pulls from.
    pub generator: SequenceGenerator,
    /// Sequences yielded so far.
    pub produced: u64,
    /// The early-stop bound; always at least one.
    pub max_count: u64,
}

impl GenerationDriver {
    /// The driver's invariant.
    pub open spec fn wf(self) -> bool {
        &&& self.generator.wf()
        &&& self.max_count >= 1
        &&& self.produced <= self.max_count
    }

    /// Wraps a generator with an early-stop bound.  A zero bound is out of
    /// domain: a run that generates nothing is a configuration error.
    pub fn new(generator: SequenceGenerator, max_count: u64) -> (r: Result<
        GenerationDriver,
        AtmError,
    >)
        requires
            generator.wf(),
        ensures
            match r {
                Ok(d) => max_count >= 1 && d.wf() && d.generator == generator && d.produced == 0
                    && d.max_count == max_count,
                Err(e) => e == AtmError::InvalidConfiguration && max_count == 0,
            },
    {
        if max_count == 0 {
            return Err(AtmError::InvalidConfiguration);
        }
        Ok(GenerationDriver { generator, produced: 0, max_count })
    }

    /// Yields the next sequence of the run, or nothing once `max_count`
    /// sequences have been yielded or the space is exhausted.
    pub fn next_sequence(&mut self) -> (r: Option<Vec<u8>>)
        requires
            old(self).wf(),
        ensures
            final(self).wf(),
            final(self).max_count == old(self).max_count,
            final(self).generator.alphabet@ == old(self).generator.alphabet@,
            final(self).generator.length() == old(self).generator.length(),
            ({
                let space = space_size(
                    old(self).generator.alphabet@.len(),
                    old(self).generator.length(),
                );
                if old(self).produced < old(self).max_count && old(self).generator.position()
                    < space {
                    &&& r is Some
                    &&& (r->0)@ == sequence_at(
                        old(self).generator.alphabet@,
                        old(self).generator.length(),
                        old(self).generator.position(),
                    )
                    &&& final(self).produced == old(self).produced + 1
                    &&& final(self).generator.position() == old(self).generator.position() + 1
                } else {
                    r is None && *final(self) == *old(self)
                }
            }),
    {
        if self.produced == self.max_count {
            return None;
        }
        match self.generator.next() {
            Some(s) => {
                self.produced = self.produced + 1;
                Some(s)
            },
            None => None,
        }
    }
}

/// The default early-stop bound when the caller gives none: the full space
/// size `n^length`, saturated to the counter's width for spaces too large
/// to count.
pub fn default_max_count(n: u64, length: u32) -> (r: u64)
    requires
        1 <= n,
    ensures
        r as nat == (if space_size(n as nat, length as nat) > u64::MAX {
            u64::MAX as nat
        } else {
            space_size(n as nat, length as nat)
        }),
{
    let c = pow_clamped_u128(n as u128, length as u64);
    if c > u64::MAX as u128 {
        u64::MAX
    } else {
        c as u64
    }
}

} // verus!
