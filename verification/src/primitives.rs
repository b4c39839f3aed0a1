//! Clones of booleans and integers, which need no memory.
use crate::error::OutOfMemory;
use crate::intern::TryClone;
use vstd::prelude::*;

verus! {

impl TryClone for bool {
    open spec fn never_fails() -> bool {
        true
    }

    fn try_clone(&self) -> (r: Result<bool, OutOfMemory>) {
        Ok(*self)
    }
}

impl TryClone for u8 {
    open spec fn never_fails() -> bool {
        true
    }

    fn try_clone(&self) -> (r: Result<u8, OutOfMemory>) {
        Ok(*self)
    }
}

impl TryClone for u16 {
    open spec fn never_fails() -> bool {
        true
    }

    fn try_clone(&self) -> (r: Result<u16, OutOfMemory>) {
        Ok(*self)
    }
}

impl TryClone for u32 {
    open spec fn never_fails() -> bool {
        true
    }

    fn try_clone(&self) -> (r: Result<u32, OutOfMemory>) {
        Ok(*self)
    }
}

impl TryClone for u64 {
    open spec fn never_fails() -> bool {
        true
    }

    fn try_clone(&self) -> (r: Result<u64, OutOfMemory>) {
        Ok(*self)
    }
}

impl TryClone for u128 {
    open spec fn never_fails() -> bool {
        true
    }

    fn try_clone(&self) -> (r: Result<u128, OutOfMemory>) {
        Ok(*self)
    }
}

impl TryClone for usize {
    open spec fn never_fails() -> bool {
        true
    }

    fn try_clone(&self) -> (r: Result<usize, OutOfMemory>) {
        Ok(*self)
    }
}

impl TryClone for i8 {
    open spec fn never_fails() -> bool {
        true
    }

    fn try_clone(&self) -> (r: Result<i8, OutOfMemory>) {
        Ok(*self)
    }
}

impl TryClone for i16 {
    open spec fn never_fails() -> bool {
        true
    }

    fn try_clone(&self) -> (r: Result<i16, OutOfMemory>) {
        Ok(*self)
    }
}

impl TryClone for i32 {
    open spec fn never_fails() -> bool {
        true
    }

    fn try_clone(&self) -> (r: Result<i32, OutOfMemory>) {
        Ok(*self)
    }
}

impl TryClone for i64 {
    open spec fn never_fails() -> bool {
        true
    }

    fn try_clone(&self) -> (r: Result<i64, OutOfMemory>) {
        Ok(*self)
    }
}

impl TryClone for i128 {
    open spec fn never_fails() -> bool {
        true
    }

    fn try_clone(&self) -> (r: Result<i128, OutOfMemory>) {
        Ok(*self)
    }
}

impl TryClone for isize {
    open spec fn never_fails() -> bool {
        true
    }

    fn try_clone(&self) -> (r: Result<isize, OutOfMemory>) {
        Ok(*self)
    }
}

} // verus!
