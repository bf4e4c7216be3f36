//! A planar N-body gravity simulator, proved correct down to the last bit.
//!
//! Bodies are point masses that attract each other by a softened
//! inverse-square law and are moved by a semi-implicit Euler scheme in equal
//! sub-steps. All arithmetic is double precision, carried out on bit patterns
//! by integer code, so that every result is stated exactly and the same on
//! every machine.
//!
//! The one departure from the binary64 format is what happens beyond its
//! range. The format has infinities, which a later step can turn back into a
//! number; here a result that is no finite number is "undefined", and every
//! result computed from it is undefined too. A run therefore agrees with
//! binary64 arithmetic as long as every step of it gives a finite number
//! there. Two bodies more than about 10^154 metres apart, whose squared
//! distance is beyond the range, get undefined forces where binary64 gives
//! zero forces, and a total mass beyond the range gives no centre of mass.
//!
//! - `number`, `rounding`, `arith`: double-precision scalars, what rounding
//!   to nearest means, and the five operations.
//! - `vector`: vectors in the plane.
//! - `physics`: forces, integration, the sub-step driver, the guarded entry
//!   `simulate`, and the centre of mass.
//! - `precision`, `speed`, `tracking`, `view`: the settings a user changes
//!   and the rules for changing them.
//! - `arith_laws`, `laws`: what is proved of the arithmetic and of the
//!   motion.

pub mod arith;
pub mod arith_laws;
pub mod laws;
pub mod number;
pub mod physics;
pub mod precision;
pub mod rounding;
pub mod speed;
pub mod tracking;
pub mod vector;
pub mod view;
