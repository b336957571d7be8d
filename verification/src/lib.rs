//! Dense matrix multiplication over a Z-order (Morton) layout.
//!
//! A matrix is first held in the usual row-major form ([`simple::Matrix`]),
//! reordered into a recursive quad-tree layout ([`znot::Matrix`]) whose
//! leaves are fragments of `F x F` elements, multiplied by recursive
//! subdivision (eight products per level with [`znot::multiply`], seven with
//! [`znot::strassen`]), and reordered back. The fragments are multiplied by a
//! kernel ([`kernel::FragMultiplyAdd`]), and the products of one level are
//! handed to a distributor ([`distribute::Distribute`]) that runs them one
//! after another or on a pool of worker threads.
//!
//! The elements are of any type with a sum, a difference and a product
//! ([`element::Element`]). Nothing is assumed of these operations, so every
//! contract says in which order a sum is formed:
//!
//! * [`layout`] defines the Z-order permutation and shows that reordering
//!   there and back is the identity;
//! * [`product`], [`simd`] and [`blocked`] define the sums that the plain
//!   loop, the lanes and the recursion form;
//! * [`strassen`] defines what Strassen's scheme computes;
//! * [`laws`] shows that the recursive product with the plain kernel is the
//!   plain product, for any elements, and that the distributor has no say;
//! * [`ring`], [`integers`] and [`agreement`] show that all the ways to
//!   multiply agree where the elements obey the laws of a ring, as the
//!   integers with wrap-around do.
pub mod agreement;
pub mod blocked;
pub mod distribute;
pub mod element;
pub mod error;
pub mod index;
pub mod integers;
pub mod kernel;
pub mod laws;
pub mod layout;
pub mod product;
pub mod ring;
pub mod simd;
pub mod simple;
pub mod strassen;
pub mod znot;
