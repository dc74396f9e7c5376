//! Ready-made point types carrying an integer payload, for callers and tests
//! that do not want to write their own implementation of
//! `KdtreePointTrait`.

use vstd::prelude::*;
use crate::kdtree::KdtreePointTrait;

verus! {

/// A three-dimensional point with an identifier payload.
#[derive(Clone, Copy, PartialEq, Debug)]
pub struct Point3WithId {
    pub x: i64,
    pub y: i64,
    pub z: i64,
    pub id: i32,
}

impl Point3WithId {
    pub fn new(id: i32, x: i64, y: i64, z: i64) -> (p: Point3WithId)
        ensures
            p.id == id,
            p.coords() =~= seq![x, y, z],
    {
        Point3WithId { x, y, z, id }
    }
}

impl KdtreePointTrait for Point3WithId {
    open spec fn coords(&self) -> Seq<i64> {
        seq![self.x, self.y, self.z]
    }

    open spec fn same(&self, other: &Self) -> bool {
        self.id == other.id && self.x == other.x && self.y == other.y && self.z == other.z
    }

    fn dims(&self) -> (r: Vec<i64>)
        ensures
            r@ == self.coords(),
    {
        let mut v: Vec<i64> = Vec::new();
        v.push(self.x);
        v.push(self.y);
        v.push(self.z);
        proof {
            assert(v@ =~= self.coords());
        }
        v
    }

    fn eq_point(&self, other: &Self) -> (b: bool)
        ensures
            b == self.same(other),
    {
        self.id == other.id && self.x == other.x && self.y == other.y && self.z == other.z
    }
}

/// A two-dimensional point with an identifier payload.
#[derive(Clone, Copy, PartialEq, Debug)]
pub struct Point2WithId {
    pub x: i64,
    pub y: i64,
    pub id: i32,
}

impl Point2WithId {
    pub fn new(id: i32, x: i64, y: i64) -> (p: Point2WithId)
        ensures
            p.id == id,
            p.coords() =~= seq![x, y],
    {
        Point2WithId { x, y, id }
    }
}

impl KdtreePointTrait for Point2WithId {
    open spec fn coords(&self) -> Seq<i64> {
        seq![self.x, self.y]
    }

    open spec fn same(&self, other: &Self) -> bool {
        self.id == other.id && self.x == other.x && self.y == other.y
    }

    fn dims(&self) -> (r: Vec<i64>)
        ensures
            r@ == self.coords(),
    {
        let mut v: Vec<i64> = Vec::new();
        v.push(self.x);
        v.push(self.y);
        proof {
            assert(v@ =~= self.coords());
        }
        v
    }

    fn eq_point(&self, other: &Self) -> (b: bool)
        ensures
            b == self.same(other),
    {
        self.id == other.id && self.x == other.x && self.y == other.y
    }
}

/// A one-dimensional point with an identifier payload.
#[derive(Clone, Copy, PartialEq, Debug)]
pub struct Point1WithId {
    pub x: i64,
    pub id: i32,
}

impl Point1WithId {
    pub fn new(id: i32, x: i64) -> (p: Point1WithId)
        ensures
            p.id == id,
            p.coords() =~= seq![x],
    {
        Point1WithId { x, id }
    }
}

impl KdtreePointTrait for Point1WithId {
    open spec fn coords(&self) -> Seq<i64> {
        seq![self.x]
    }

    open spec fn same(&self, other: &Self) -> bool {
        self.id == other.id && self.x == other.x
    }

    fn dims(&self) -> (r: Vec<i64>)
        ensures
            r@ == self.coords(),
    {
        let mut v: Vec<i64> = Vec::new();
        v.push(self.x);
        proof {
            assert(v@ =~= self.coords());
        }
        v
    }

    fn eq_point(&self, other: &Self) -> (b: bool)
        ensures
            b == self.same(other),
    {
        self.id == other.id && self.x == other.x
    }
}

} // verus!
