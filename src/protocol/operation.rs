//! A command opcode together with its ordered parameters.
use vstd::prelude::*;

use super::{NinaAbstractParam, NinaCommand};

verus! {

/// The most parameters an operation holds.
pub const MAX_NUMBER_OF_PARAMS: usize = 8;

/// Storage of an operation's parameters.
pub type ParamList = heapless::Vec<NinaAbstractParam, MAX_NUMBER_OF_PARAMS>;

/// The parameters held by an operation's list.
pub uninterp spec fn param_list(v: heapless::Vec<NinaAbstractParam, 8>) -> Seq<NinaAbstractParam>;

/// Relies on `heapless::Vec::new`: the new vector is empty.
#[verifier::external_body]
fn param_list_new() -> (r: ParamList)
    ensures
        param_list(r) == Seq::<NinaAbstractParam>::empty(),
{
    heapless::Vec::new()
}

/// Relies on `heapless::Vec::push`: below capacity the item is appended,
/// at capacity the item is handed back and the vector is unchanged.
#[verifier::external_body]
fn param_list_push(v: &mut ParamList, p: NinaAbstractParam) -> (r: Result<(), NinaAbstractParam>)
    ensures
        param_list(*old(v)).len() < 8 ==> r is Ok,
        param_list(*old(v)).len() < 8 ==> param_list(*final(v)) == param_list(*old(v)).push(p),
        param_list(*old(v)).len() >= 8 ==> (r matches Err(q) && q == p),
        param_list(*old(v)).len() >= 8 ==> param_list(*final(v)) == param_list(*old(v)),
{
    v.push(p)
}

/// Relies on `heapless::Vec::as_slice`: the slice holds the vector's items.
#[verifier::external_body]
pub(crate) fn param_list_as_slice(v: &ParamList) -> (r: &[NinaAbstractParam])
    ensures
        r@ == param_list(*v),
{
    v.as_slice()
}

/// Everything needed to send one command: its opcode and its parameters in
/// the order the firmware expects them.
pub struct Operation {
    /// The parameters, in wire order.
    pub params: ParamList,
    /// The command.
    pub command: NinaCommand,
}

impl Operation {
    /// The parameters, in wire order.
    pub open spec fn params_view(&self) -> Seq<NinaAbstractParam> {
        param_list(self.params)
    }

    /// At most eight parameters, each well formed.
    pub open spec fn wf(&self) -> bool {
        &&& self.params_view().len() <= 8
        &&& forall|i: int| 0 <= i < self.params_view().len() ==> #[trigger] self.params_view()[i].wf()
    }

    /// Starts an operation for `nina_command` with no parameters.
    pub fn new(nina_command: NinaCommand) -> (r: Self)
        ensures
            r.command == nina_command,
            r.params_view() == Seq::<NinaAbstractParam>::empty(),
            r.wf(),
    {
        Self { params: param_list_new(), command: nina_command }
    }

    /// Appends `param` after the parameters already held.
    pub fn param(self, param: NinaAbstractParam) -> (r: Self)
        requires
            self.wf(),
            self.params_view().len() < 8,
            param.wf(),
        ensures
            r.command == self.command,
            r.params_view() == self.params_view().push(param),
            r.wf(),
    {
        let mut op = self;
        let pushed = param_list_push(&mut op.params, param);
        proof {
            assert(pushed is Ok);
        }
        op
    }
}

} // verus!
