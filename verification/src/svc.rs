//! Supervisor calls of the graphics and kernel interface: which method an id
//! means.

use crate::error::{ErrorView, WieError};
use crate::number::{hex_chars, prefixed_hex};
use crate::text::{append_chars, chars_of, string_of};
use vstd::prelude::*;

verus! {

/// The number of parameters that a method is called with.
pub const METHOD_PARAMETERS: usize = 9;

/// A method: its table and its place in it.
#[derive(Clone, Copy, Debug, PartialEq, Eq, Structural)]
pub struct SvcTarget {
    pub table: u32,
    pub function: u16,
}

/// Where a call goes.
#[derive(Clone, Copy, Debug, PartialEq, Eq, Structural)]
pub enum SvcRoute {
    /// The call asks for the interfaces themselves.
    Interfaces,
    /// The call is a method's.
    Method(SvcTarget),
}

/// The method that an id means: the table in its high half, the place in its low.
pub open spec fn target_of(id: u32) -> SvcTarget {
    SvcTarget { table: (id / 0x1_0000) as u32, function: (id % 0x1_0000) as u16 }
}

/// An id is its table and its place in it.
pub proof fn law_ids_are_their_targets(id: u32)
    ensures
        target_of(id).table * 0x1_0000 + target_of(id).function == id,
{
}

/// The method that an id means.
pub fn svc_target(id: u32) -> (target: SvcTarget)
    ensures
        target == target_of(id),
{
    SvcTarget { table: id / 0x1_0000, function: (id % 0x1_0000) as u16 }
}

/// Where a call goes. `interfaces` is the method that asks for the interfaces;
/// `known` says whether there is a method of this id.
pub fn svc_route(id: u32, interfaces: SvcTarget, known: bool) -> (route: Result<SvcRoute, WieError>)
    ensures
        target_of(id) == interfaces ==> route == Ok::<SvcRoute, WieError>(SvcRoute::Interfaces),
        target_of(id) != interfaces && known ==> route == Ok::<SvcRoute, WieError>(
            SvcRoute::Method(target_of(id)),
        ),
        target_of(id) != interfaces && !known ==> route is Err && route->Err_0@
            == ErrorView::FatalError("Unknown KTF WIPIC SVC id "@ + prefixed_hex(id as nat)),
{
    let target = svc_target(id);
    if target.table == interfaces.table && target.function == interfaces.function {
        return Ok(SvcRoute::Interfaces);
    }
    if known {
        return Ok(SvcRoute::Method(target));
    }
    let mut text = chars_of("Unknown KTF WIPIC SVC id ");
    append_chars(&mut text, &hex_chars(id));
    Err(WieError::FatalError(string_of(&text)))
}

/// Whether a parameter can be read.
pub open spec fn answers<F: Fn(usize) -> Result<u32, WieError>>(read: F, index: usize) -> bool {
    exists|value: u32| call_ensures(read, (index,), Ok::<u32, WieError>(value))
}

/// The parameters of a method, read in order, or the first failure.
pub fn read_parameters(read: impl Fn(usize) -> Result<u32, WieError>) -> (parameters: Result<
    Vec<u32>,
    WieError,
>)
    requires
        forall|index: usize| index < METHOD_PARAMETERS ==> call_requires(read, (index,)),
    ensures
        match parameters {
            Ok(values) => values@.len() == METHOD_PARAMETERS && forall|index: usize|
                index < METHOD_PARAMETERS ==> call_ensures(
                    read,
                    (index,),
                    Ok::<u32, WieError>(#[trigger] values@[index as int]),
                ),
            Err(error) => exists|index: usize|
                {
                    &&& index < METHOD_PARAMETERS
                    &&& #[trigger] call_ensures(read, (index,), Err::<u32, WieError>(error))
                    &&& forall|earlier: usize|
                        earlier < index ==> #[trigger] answers(read, earlier)
                },
        },
{
    let mut values: Vec<u32> = Vec::new();
    let mut index: usize = 0;
    while index < METHOD_PARAMETERS
        invariant
            index <= METHOD_PARAMETERS,
            values@.len() == index,
            forall|i: usize| i < METHOD_PARAMETERS ==> call_requires(read, (i,)),
            forall|i: usize|
                i < index ==> call_ensures(
                    read,
                    (i,),
                    Ok::<u32, WieError>(#[trigger] values@[i as int]),
                ),
        decreases METHOD_PARAMETERS - index,
    {
        match read(index) {
            Ok(value) => values.push(value),
            Err(error) => {
                assert forall|earlier: usize| earlier < index implies #[trigger] answers(
                    read,
                    earlier,
                ) by {
                    assert(call_ensures(
                        read,
                        (earlier,),
                        Ok::<u32, WieError>(values@[earlier as int]),
                    ));
                }
                return Err(error);
            },
        }
        index += 1;
    }
    Ok(values)
}

/// A call goes to the interfaces exactly where its id is that of the method that asks for
/// them, and otherwise to the method that its id names, if there is one. An unknown id is
/// named in the error.
pub proof fn law_calls_go_where_their_ids_say(
    id: u32,
    interfaces: SvcTarget,
    known: bool,
    target: SvcTarget,
    route: Result<SvcRoute, WieError>,
)
    requires
        call_ensures(svc_target, (id,), target),
        call_ensures(svc_route, (id, interfaces, known), route),
    ensures
        target.table * 65_536 + target.function == id,
        (route == Ok::<SvcRoute, WieError>(SvcRoute::Interfaces)) == (interfaces.table * 65_536
            + interfaces.function == id),
        route matches Ok(SvcRoute::Method(method)) ==> known && method.table * 65_536
            + method.function == id,
        route is Err == (!known && interfaces.table * 65_536 + interfaces.function != id),
{
    law_ids_are_their_targets(id);
}

/// Where every parameter can be read in one way only, a method is called with all nine of
/// them, in order; the first that cannot be read is what fails, whatever the others are.
pub proof fn law_parameters_are_read_in_order<F: Fn(usize) -> Result<u32, WieError>>(
    read: F,
    values: Seq<u32>,
    parameters: Result<Vec<u32>, WieError>,
)
    requires
        call_ensures(read_parameters, (read,), parameters),
        forall|index: usize, answer: Result<u32, WieError>|
            index < values.len() && #[trigger] call_ensures(read, (index,), answer) ==> answer == Ok::<
                u32,
                WieError,
            >(values[index as int]),
    ensures
        values.len() >= 9 ==> (parameters matches Ok(read) && read@ == values.take(9)),
        values.len() < 9 && (forall|answer: Result<u32, WieError>|
            #[trigger] call_ensures(read, (values.len() as usize,), answer) ==> answer is Err)
            ==> parameters is Err,
{
    if let Ok(got) = parameters {
        assert forall|i: int| 0 <= i < 9 && i < values.len() implies #[trigger] got@[i]
            == values[i] by {
            let index = i as usize;
            assert(call_ensures(read, (index,), Ok::<u32, WieError>(got@[index as int])));
        }
        if values.len() >= 9 {
            assert(got@ =~= values.take(9));
        } else {
            let index = values.len() as usize;
            assert(call_ensures(read, (index,), Ok::<u32, WieError>(got@[index as int])));
        }
    }
}

} // verus!
