//! Delegation of trait methods to a base value.
//!
//! A type that extends another one implements [`TestDelegateBase`] by naming
//! its base; the methods it does not override are answered by the base.

use std::marker::PhantomData;
use vstd::prelude::*;

verus! {

/// The methods that are delegated.
pub trait TestBase {
    /// A type carried along with the implementation.
    type SomeType: Clone;

    /// The number that `test1` computes.
    spec fn spec_test1(&self) -> i32;

    /// The number that `test_ref` refers to.
    spec fn spec_test_ref(&self) -> i32;

    /// A number computed from the value.
    fn test1(&self) -> (res: i32)
        ensures
            res == self.spec_test1();

    /// A reference into the value.
    fn test_ref(&self) -> (res: &i32)
        ensures
            *res == self.spec_test_ref();
}

/// A base implementation holding one number.
pub struct A {
    pub x: i32,
}

impl TestBase for A {
    type SomeType = String;

    open spec fn spec_test1(&self) -> i32 {
        self.x
    }

    open spec fn spec_test_ref(&self) -> i32 {
        self.x
    }

    fn test1(&self) -> (res: i32)
        ensures
            res == self.x,
    {
        self.x
    }

    fn test_ref(&self) -> (res: &i32)
        ensures
            *res == self.x,
    {
        &self.x
    }
}

/// Implement this trait to extend a base: by default, each method is answered by the base.
pub trait TestDelegateBase {
    /// The type of the base.
    type B: TestBase;

    /// The base that `base` returns.
    spec fn spec_base(&self) -> Self::B;

    /// The base that answers the methods not overridden.
    fn base(&self) -> (res: &Self::B)
        ensures
            *res == self.spec_base();

    /// Delegated to the base unless overridden.
    fn test1(&self) -> (res: i32)
        default_ensures
            res == self.spec_base().spec_test1(),
    {
        self.base().test1()
    }

    /// Delegated to the base unless overridden.
    fn test_ref(&self) -> (res: &i32)
        default_ensures
            *res == self.spec_base().spec_test_ref(),
    {
        self.base().test_ref()
    }
}

/// An extension of [`A`] that overrides `test1` and delegates `test_ref`.
pub struct Aext {
    pub base: A,
}

impl TestDelegateBase for Aext {
    type B = A;

    open spec fn spec_base(&self) -> A {
        self.base
    }

    fn base(&self) -> (res: &A)
        ensures
            *res == self.base,
    {
        &self.base
    }

    fn test1(&self) -> (res: i32)
        ensures
            res == 42,
    {
        42
    }
}

/// A value together with the type of its base.
pub struct Wrapper<T, B> {
    pub t: T,
    pub base_type: PhantomData<B>,
}

/// Access to the wrapped value.
pub trait GetBase {
    /// The type of the wrapped value.
    type Base;

    /// The wrapped value.
    fn get_base(&self) -> &Self::Base;
}

impl<T, B> GetBase for Wrapper<T, B> {
    type Base = T;

    fn get_base(&self) -> (res: &T)
        ensures
            *res == self.t,
    {
        &self.t
    }
}

} // verus!
