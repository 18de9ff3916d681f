//! The queue of messages waiting for IO clients of the websocket channel.
use vstd::prelude::*;
use std::sync::{Arc, Mutex};

verus! {

#[verifier::external_type_specification]
#[verifier::external_body]
#[verifier::reject_recursive_types(T)]
pub struct ExMutex<T: ?Sized>(Mutex<T>);

/// Relies on `Mutex::new`: wraps the value in a new, unlocked mutex.
pub assume_specification<T>[ Mutex::<T>::new ](t: T) -> Mutex<T>;

/// A message for IO clients.
#[derive(Clone, Debug)]
pub struct WebsocketIoStruct {
    /// The client that sent the message.
    pub client: String,
    pub action: String,
    pub bgm: Option<String>,
    pub start_time: Option<u64>,
}

/// The state shared by the generic routes: the pending IO messages.
pub struct GenericRoutes {
    pub websocket_io_queue: Arc<Mutex<Vec<WebsocketIoStruct>>>,
}

impl GenericRoutes {
    /// Routes with an empty IO queue.
    pub fn new() -> (r: Self) {
        GenericRoutes { websocket_io_queue: Arc::new(Mutex::new(Vec::new())) }
    }
}

/// `k` is the first message in `q` that does not come from `user`.
pub open spec fn first_from_other(q: Seq<WebsocketIoStruct>, user: Seq<char>, k: int) -> bool {
    &&& 0 <= k < q.len()
    &&& q[k].client@ != user
    &&& forall|i: int| 0 <= i < k ==> q[i].client@ == user
}

/// Takes out the first queued message that another client sent, for delivery
/// to `username`; the other messages stay in order.
pub fn take_next_for(queue: &mut Vec<WebsocketIoStruct>, username: &String) -> (r: Option<
    WebsocketIoStruct,
>)
    ensures
        match r {
            Some(m) => exists|k: int|
                first_from_other(old(queue)@, username@, k) && m == old(queue)@[k]
                    && final(queue)@ == old(queue)@.remove(k),
            None => final(queue)@ == old(queue)@ && forall|i: int|
                0 <= i < old(queue)@.len() ==> old(queue)@[i].client@ == username@,
        },
{
    let mut k: usize = 0;
    while k < queue.len()
        invariant
            k <= queue@.len(),
            queue@ == old(queue)@,
            forall|i: int| 0 <= i < k ==> queue@[i].client@ == username@,
        decreases queue@.len() - k,
    {
        if queue[k].client != *username {
            let ghost before = queue@;
            let m = queue.remove(k);
            assert(first_from_other(before, username@, k as int) && m == before[k as int]
                && queue@ == before.remove(k as int));
            return Some(m);
        }
        k = k + 1;
    }
    None
}

} // verus!
