//! Sets of intervals over a totally ordered domain.
//!
//! A set is a finite union of intervals, each open, closed, half-open, a
//! single point, or unbounded. It is stored as an ordered list of boundary
//! markers ("tines"). The algebra of sets (complement, union, intersection,
//! difference) rewrites the list near the ends of the interval that is
//! applied, and every operation leaves the list canonical: no tine is
//! redundant, and no two tines stand at one place.
//!
//! # The model
//!
//! The contracts speak of sets of *sites*. The point of rank `k` sits at
//! the even site `2k`, and the odd site `2k + 1` stands for the open gap
//! between the points of rank `k` and `k + 1`. A set of points is modelled
//! by the set of the sites that it covers, so that `(0, 1)` and the empty
//! set are different sets even over the integers. A canonical list of tines
//! is determined by its set of sites, which is why the laws of the algebra
//! hold of the lists themselves.
//!
//! # The modules
//!
//! - [`domain`], [`bound`], [`raw_interval`], [`utilities`]: points, ends
//!   of intervals, single intervals, and a small helper.
//! - [`tine`], [`tine_order`]: the tines, their order, and how two tines at
//!   one place merge.
//! - [`tine_tree`], [`iter`]: the sets and the walks over their intervals.
//! - [`tape`], [`splice`], [`exterior`], [`interior`], [`flip`], [`hull`],
//!   [`pieces`], [`canon`]: what a list of tines covers, and the proofs
//!   that the operations rewrite it as they should.
//! - [`laws`]: the algebra of sets, proved of the trees.
pub mod bound;
pub mod canon;
pub mod domain;
pub mod exterior;
pub mod flip;
pub mod hull;
pub mod interior;
pub mod iter;
pub mod laws;
pub mod pieces;
pub mod raw_interval;
pub mod splice;
pub mod tape;
pub mod tine;
pub mod tine_order;
pub mod tine_tree;
pub mod utilities;
