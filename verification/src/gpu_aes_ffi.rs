//! Argument rules of the device AES hash context.
use vstd::prelude::*;

verus! {

/// Words per 256-bit hash input.
pub const WORDS_PER_ELEMENT: usize = 8;

#[derive(Debug, Clone, Copy, PartialEq, Eq, Structural)]
pub enum AesError {
    InitFailed,
    SetKeyFailed,
    LengthMismatch,
    NotAMultiple,
    HashFailed,
}

/// A device AES context, known by its address.
#[derive(Debug)]
pub struct CudaAES {
    pub ctx: usize,
}

impl CudaAES {
    /// Takes over a context; address zero means that its creation failed.
    pub fn new(ctx: usize) -> (r: Result<CudaAES, AesError>)
        ensures
            r is Ok <==> ctx != 0,
            r matches Ok(a) ==> a.ctx == ctx,
            r matches Err(e) ==> e == AesError::InitFailed,
    {
        if ctx == 0 {
            return Err(AesError::InitFailed);
        }
        Ok(CudaAES { ctx })
    }

    /// The address of the context.
    pub fn ctx_mut_ptr(&self) -> (r: usize)
        ensures
            r == self.ctx,
    {
        self.ctx
    }

    /// The result of setting the key, from the return code.
    pub fn set_key(&self, rc: i32) -> (r: Result<(), AesError>)
        ensures
            r == if rc == 0 {
                Ok::<(), AesError>(())
            } else {
                Err(AesError::SetKeyFailed)
            },
    {
        if rc != 0 {
            Err(AesError::SetKeyFailed)
        } else {
            Ok(())
        }
    }

    /// The number of pairs in a batch: both inputs have the same number of
    /// words, eight for each pair.
    pub fn hash_batch(&self, input_one: &[u32], input_two: &[u32]) -> (r: Result<usize, AesError>)
        ensures
            r is Ok <==> input_one@.len() == input_two@.len() && input_one@.len()
                % (WORDS_PER_ELEMENT as nat) == 0,
            r matches Ok(n) ==> n * WORDS_PER_ELEMENT == input_one@.len(),
            r matches Err(e) ==> e == if input_one@.len() != input_two@.len() {
                AesError::LengthMismatch
            } else {
                AesError::NotAMultiple
            },
    {
        if input_one.len() != input_two.len() {
            return Err(AesError::LengthMismatch);
        }
        if input_one.len() % WORDS_PER_ELEMENT != 0 {
            return Err(AesError::NotAMultiple);
        }
        Ok(input_one.len() / WORDS_PER_ELEMENT)
    }

    /// The hashes of a batch, from the return code and the words that were
    /// written.
    pub fn hash_batch_result(&self, rc: i32, output: Vec<u32>) -> (r: Result<Vec<u32>, AesError>)
        ensures
            r is Ok <==> rc == 0,
            r matches Ok(v) ==> v == output,
            r matches Err(e) ==> e == AesError::HashFailed,
    {
        if rc != 0 {
            Err(AesError::HashFailed)
        } else {
            Ok(output)
        }
    }
}

} // verus!
