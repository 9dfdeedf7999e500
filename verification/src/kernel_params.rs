//! The parameters that kernels are launched with. A launch takes a pointer to each
//! value.

use vstd::prelude::*;

verus! {

/// The parameters of a kernel: its output, its inputs and, where it uses them, the
/// dynamic dimensions.
#[derive(Debug)]
pub struct KernelParams {
    values: Vec<u64>,
    /// Where the pointer to the dynamic dimensions stands.
    dyn_dims_idx: Option<usize>,
}

impl View for KernelParams {
    type V = Seq<u64>;

    closed spec fn view(&self) -> Seq<u64> {
        self.values@
    }
}

impl KernelParams {
    /// There is an output; the dynamic dimensions come last.
    pub closed spec fn wf(&self) -> bool {
        &&& self.values@.len() >= 1
        &&& self.dyn_dims_idx matches Some(i) ==> 1 <= i && i == self.values@.len() - 1
    }

    /// Whether the kernel uses dynamic dimensions.
    pub closed spec fn uses_dyn_dims(&self) -> bool {
        self.dyn_dims_idx is Some
    }

    /// How many inputs there are.
    pub open spec fn input_count(&self) -> int {
        self@.len() - 1 - if self.uses_dyn_dims() {
            1int
        } else {
            0int
        }
    }

    /// The parameters of a kernel without dynamic dimensions.
    pub fn new(output_ptr: u64, input_ptrs: &[u64]) -> (r: KernelParams)
        ensures
            r.wf(),
            !r.uses_dyn_dims(),
            r@ == seq![output_ptr] + input_ptrs@,
    {
        let mut values: Vec<u64> = Vec::new();
        values.push(output_ptr);
        values.extend_from_slice(input_ptrs);
        assert(values@ =~= seq![output_ptr] + input_ptrs@);
        KernelParams { values, dyn_dims_idx: None }
    }

    /// The parameters of a kernel with dynamic dimensions.
    pub fn with_dyn_dims(output_ptr: u64, input_ptrs: &[u64], dyn_dims_ptr: u64) -> (r: KernelParams)
        ensures
            r.wf(),
            r.uses_dyn_dims(),
            r@ == (seq![output_ptr] + input_ptrs@).push(dyn_dims_ptr),
    {
        let mut values: Vec<u64> = Vec::new();
        values.push(output_ptr);
        values.extend_from_slice(input_ptrs);
        let dyn_dims_idx: usize = values.len();
        values.push(dyn_dims_ptr);
        assert(values@ =~= (seq![output_ptr] + input_ptrs@).push(dyn_dims_ptr));
        KernelParams { values, dyn_dims_idx: Some(dyn_dims_idx) }
    }

    /// The values in the order of the launch.
    pub fn as_cuda_params(&self) -> (r: &Vec<u64>)
        ensures
            r@ == self@,
    {
        &self.values
    }

    /// Another output.
    pub fn update_output(&mut self, ptr: u64)
        requires
            old(self).wf(),
        ensures
            final(self).wf(),
            final(self).uses_dyn_dims() == old(self).uses_dyn_dims(),
            final(self)@ == old(self)@.update(0, ptr),
    {
        self.values.set(0, ptr);
    }

    /// Another input. The parameter after the inputs, where there is one, counts as one
    /// of them.
    pub fn update_input(&mut self, index: usize, ptr: u64)
        requires
            old(self).wf(),
            index < old(self)@.len() - 1,
        ensures
            final(self).wf(),
            final(self).uses_dyn_dims() == old(self).uses_dyn_dims(),
            final(self)@ == old(self)@.update(1 + index, ptr),
    {
        let n: usize = self.values.len();
        assert(index < n - 1);
        self.values.set(1 + index, ptr);
    }

    /// Another place for the dynamic dimensions, if the kernel uses them.
    pub fn update_dyn_dims(&mut self, ptr: u64)
        requires
            old(self).wf(),
        ensures
            final(self).wf(),
            final(self).uses_dyn_dims() == old(self).uses_dyn_dims(),
            final(self)@ == if old(self).uses_dyn_dims() {
                old(self)@.update(old(self)@.len() - 1, ptr)
            } else {
                old(self)@
            },
    {
        if let Some(idx) = self.dyn_dims_idx {
            self.values.set(idx, ptr);
        }
    }
}

/// The parameters of a megakernel: tasks, head, ready, queue lock, timings, start
/// times, buffers, dynamic dimensions.
#[derive(Debug)]
pub struct MegakernelParams {
    values: Vec<u64>,
}

impl View for MegakernelParams {
    type V = Seq<u64>;

    closed spec fn view(&self) -> Seq<u64> {
        self.values@
    }
}

impl MegakernelParams {
    /// All eight are there.
    pub open spec fn wf(&self) -> bool {
        self@.len() == 8
    }

    /// The parameters in the order of the launch.
    pub fn new(
        tasks_ptr: u64,
        head_ptr: u64,
        ready_ptr: u64,
        queue_lock_ptr: u64,
        timings_ptr: u64,
        start_times_ptr: u64,
        buffers_ptr: u64,
        dyn_dims_ptr: u64,
    ) -> (r: MegakernelParams)
        ensures
            r.wf(),
            r@ == seq![
                tasks_ptr,
                head_ptr,
                ready_ptr,
                queue_lock_ptr,
                timings_ptr,
                start_times_ptr,
                buffers_ptr,
                dyn_dims_ptr,
            ],
    {
        let values: Vec<u64> = vec![
            tasks_ptr,
            head_ptr,
            ready_ptr,
            queue_lock_ptr,
            timings_ptr,
            start_times_ptr,
            buffers_ptr,
            dyn_dims_ptr,
        ];
        MegakernelParams { values }
    }

    /// The values in the order of the launch.
    pub fn as_cuda_params(&self) -> (r: &Vec<u64>)
        ensures
            r@ == self@,
    {
        &self.values
    }

    /// Another array of buffers.
    pub fn update_buffers(&mut self, ptr: u64)
        requires
            old(self).wf(),
        ensures
            final(self).wf(),
            final(self)@ == old(self)@.update(6, ptr),
    {
        self.values.set(6, ptr);
    }

    /// Another place for the dynamic dimensions.
    pub fn update_dyn_dims(&mut self, ptr: u64)
        requires
            old(self).wf(),
        ensures
            final(self).wf(),
            final(self)@ == old(self)@.update(7, ptr),
    {
        self.values.set(7, ptr);
    }

    /// Where the array of buffers is.
    pub fn buffers_ptr(&self) -> (r: u64)
        requires
            self.wf(),
        ensures
            r == self@[6],
    {
        self.values[6]
    }
}

} // verus!
