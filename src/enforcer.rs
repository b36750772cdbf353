use vstd::prelude::*;
use std::ops::RangeInclusive;
use crate::graph::{DType, Tensor};

verus! {

/// A violated expectation about the inputs or outputs of an operation.
#[derive(Debug)]
pub enum InvariantError {
    ShapeMismatch { left: usize, right: usize, a: usize, b: usize },
    RankMismatch { accepted: RangeInclusive<usize>, actual: usize },
    InputArity { accepted: RangeInclusive<usize>, actual: usize },
    OutputArity { accepted: RangeInclusive<usize>, actual: usize },
    DTypeMismatch { expected: DType, actual: DType },
}

/// `x` lies in `r`.
pub open spec fn in_range(r: RangeInclusive<usize>, x: int) -> bool {
    r@.start <= x && if r@.exhausted {
        x < r@.end
    } else {
        x <= r@.end
    }
}

/// Checks on the tensors of an operation, made while its outputs are inferred.
pub struct Enforcer;

impl Enforcer {
    pub fn check_input_arity(inputs: &[Tensor], expected: usize) -> (r: Result<(), InvariantError>)
        requires
            expected < usize::MAX,
        ensures
            r is Ok <==> expected <= inputs@.len() <= expected + 1,
            r matches Err(e) ==> e matches InvariantError::InputArity { accepted, actual } && actual
                == inputs@.len() && accepted@.start == expected && accepted@.end == expected + 1
                && !accepted@.exhausted,
    {
        let accepted = RangeInclusive::new(expected, expected + 1);
        Self::check_input_arity_range(inputs, accepted)
    }

    pub fn check_input_arity_range(inputs: &[Tensor], accepted: RangeInclusive<usize>) -> (r: Result<
        (),
        InvariantError,
    >)
        ensures
            r is Ok <==> in_range(accepted, inputs@.len() as int),
            r matches Err(e) ==> e matches InvariantError::InputArity { accepted: acc, actual } && acc
                == accepted && actual == inputs@.len(),
    {
        if !accepted.contains(&inputs.len()) {
            Err(InvariantError::InputArity { accepted, actual: inputs.len() })
        } else {
            Ok(())
        }
    }

    pub fn check_output_arity_range(outputs: &[Tensor], accepted: RangeInclusive<usize>) -> (r:
        Result<(), InvariantError>)
        ensures
            r is Ok <==> in_range(accepted, outputs@.len() as int),
            r matches Err(e) ==> e matches InvariantError::OutputArity { accepted: acc, actual } && acc
                == accepted && actual == outputs@.len(),
    {
        if !accepted.contains(&outputs.len()) {
            Err(InvariantError::OutputArity { accepted, actual: outputs.len() })
        } else {
            Ok(())
        }
    }

    pub fn check_output_arity(outputs: &[Tensor], expected: usize) -> (r: Result<(), InvariantError>)
        requires
            expected < usize::MAX,
        ensures
            r is Ok <==> expected <= outputs@.len() <= expected + 1,
            r matches Err(e) ==> e matches InvariantError::OutputArity { accepted, actual } && actual
                == outputs@.len() && accepted@.start == expected && accepted@.end == expected + 1
                && !accepted@.exhausted,
    {
        let accepted = RangeInclusive::new(expected, expected + 1);
        Self::check_output_arity_range(outputs, accepted)
    }

    pub fn check_shape_pair(a: &Tensor, b: &Tensor, left: usize, right: usize) -> (r: Result<
        (),
        InvariantError,
    >)
        requires
            left < a.shape@.len(),
            right < b.shape@.len(),
        ensures
            r is Ok <==> a.shape@[left as int] == b.shape@[right as int],
            r matches Err(e) ==> e == (InvariantError::ShapeMismatch {
                left,
                right,
                a: a.shape@[left as int],
                b: b.shape@[right as int],
            }),
    {
        if a.shape()[left] != b.shape()[right] {
            return Err(
                InvariantError::ShapeMismatch {
                    left,
                    right,
                    a: a.shape()[left],
                    b: b.shape()[right],
                },
            );
        }
        Ok(())
    }

    /// All tensors agree with the first at dimension `index`; otherwise the
    /// first that does not is reported.
    pub fn match_shapes_at_index(tensors: &Vec<Tensor>, index: usize) -> (r: Result<(), InvariantError>)
        requires
            tensors@.len() > 0,
            forall|i: int| 0 <= i < tensors@.len() ==> index < #[trigger] tensors@[i].shape@.len(),
        ensures
            r is Ok <==> forall|i: int|
                0 <= i < tensors@.len() ==> #[trigger] tensors@[i].shape@[index as int]
                    == tensors@[0].shape@[index as int],
            r matches Err(e) ==> exists|i: int|
                0 < i < tensors@.len() && #[trigger] tensors@[i].shape@[index as int]
                    != tensors@[0].shape@[index as int] && (forall|j: int|
                    0 <= j < i ==> #[trigger] tensors@[j].shape@[index as int] == tensors@[0].shape@[index as int])
                    && e == (InvariantError::ShapeMismatch {
                    left: index,
                    right: index,
                    a: tensors@[0].shape@[index as int],
                    b: tensors@[i].shape@[index as int],
                }),
    {
        let shape = tensors[0].shape();
        let mut i: usize = 1;
        while i < tensors.len()
            invariant
                1 <= i <= tensors@.len(),
                shape@ == tensors@[0].shape@,
                forall|x: int| 0 <= x < tensors@.len() ==> index < #[trigger] tensors@[x].shape@.len(),
                forall|j: int|
                    0 <= j < i ==> #[trigger] tensors@[j].shape@[index as int] == tensors@[0].shape@[index as int],
            decreases tensors@.len() - i,
        {
            let other = tensors[i].shape();
            if shape[index] != other[index] {
                return Err(
                    InvariantError::ShapeMismatch {
                        left: index,
                        right: index,
                        a: shape[index],
                        b: other[index],
                    },
                );
            }
            i = i + 1;
        }
        Ok(())
    }

    pub fn assert_rank(tensor: &Tensor, rank: usize) -> (r: Result<(), InvariantError>)
        requires
            rank < usize::MAX,
        ensures
            r is Ok <==> tensor.shape@.len() == rank,
            r matches Err(e) ==> e matches InvariantError::RankMismatch { accepted, actual } && actual
                == tensor.shape@.len() && accepted@.start == rank && accepted@.end == rank + 1
                && !accepted@.exhausted,
    {
        if tensor.rank() != rank {
            return Err(
                InvariantError::RankMismatch {
                    accepted: RangeInclusive::new(rank, rank + 1),
                    actual: tensor.rank(),
                },
            );
        }
        Ok(())
    }

    pub fn assert_dtype(tensor: &Tensor, dtype: DType) -> (r: Result<(), InvariantError>)
        ensures
            r is Ok <==> tensor.dt == dtype,
            r matches Err(e) ==> e == (InvariantError::DTypeMismatch {
                expected: dtype,
                actual: tensor.dt,
            }),
    {
        if tensor.dt() != dtype {
            return Err(InvariantError::DTypeMismatch { expected: dtype, actual: tensor.dt() });
        }
        Ok(())
    }

    pub fn assert_rank_range(tensor: &Tensor, range: RangeInclusive<usize>) -> (r: Result<
        (),
        InvariantError,
    >)
        ensures
            r is Ok <==> in_range(range, tensor.shape@.len() as int),
            r matches Err(e) ==> e matches InvariantError::RankMismatch { accepted, actual } && accepted
                == range && actual == tensor.shape@.len(),
    {
        if !range.contains(&tensor.rank()) {
            return Err(InvariantError::RankMismatch { accepted: range, actual: tensor.rank() });
        }
        Ok(())
    }

    /// The common rank of all tensors; otherwise the first tensor whose rank
    /// differs from the first's is reported.
    pub fn assert_equal_ranks(tensors: &Vec<Tensor>) -> (r: Result<usize, InvariantError>)
        requires
            tensors@.len() > 0,
            tensors@[0].shape@.len() < usize::MAX,
        ensures
            r is Ok <==> forall|i: int|
                0 <= i < tensors@.len() ==> #[trigger] tensors@[i].shape@.len() == tensors@[0].shape@.len(),
            r matches Ok(rank) ==> rank == tensors@[0].shape@.len(),
            r matches Err(e) ==> exists|i: int|
                0 < i < tensors@.len() && #[trigger] tensors@[i].shape@.len() != tensors@[0].shape@.len()
                    && (forall|j: int| 0 <= j < i ==> #[trigger] tensors@[j].shape@.len() == tensors@[0].shape@.len())
                    && (e matches InvariantError::RankMismatch { accepted, actual } && actual
                    == tensors@[i].shape@.len() && accepted@.start == tensors@[0].shape@.len()
                    && accepted@.end == tensors@[0].shape@.len() + 1 && !accepted@.exhausted),
    {
        let rank = tensors[0].rank();
        let mut i: usize = 1;
        while i < tensors.len()
            invariant
                1 <= i <= tensors@.len(),
                rank == tensors@[0].shape@.len(),
                rank < usize::MAX,
                forall|j: int| 0 <= j < i ==> #[trigger] tensors@[j].shape@.len() == rank,
            decreases tensors@.len() - i,
        {
            let actual = tensors[i].rank();
            if rank != actual {
                let accepted = RangeInclusive::new(rank, rank + 1);
                let e = InvariantError::RankMismatch { accepted, actual };
                assert(tensors@[i as int].shape@.len() != tensors@[0].shape@.len());
                return Err(e);
            }
            i = i + 1;
        }
        Ok(rank)
    }
}

} // verus!
