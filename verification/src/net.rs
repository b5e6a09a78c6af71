//! The kernel's bookkeeping of network sockets: which descriptor stands
//! for which socket, the data that epoll reports for a descriptor, and the
//! listening descriptor. The sockets themselves live in the network stack.
use vstd::prelude::*;
use std::collections::BTreeMap;

verus! {

broadcast use vstd::std_specs::btree::group_btree_axioms, vstd::laws_cmp::group_laws_cmp;

/// Descriptors of sockets and what epoll reports for them.
pub struct NetState {
    /// The socket (a handle of the network stack) behind each descriptor.
    pub handles: BTreeMap<usize, usize>,
    /// The user data that epoll reports for a descriptor.
    pub epoll_data: BTreeMap<usize, u64>,
    /// The descriptor of the listening socket.
    pub listen_fd: Option<usize>,
}

impl NetState {
    /// No sockets.
    pub fn new() -> (n: NetState)
        ensures
            n.handles@ == Map::<usize, usize>::empty(),
            n.epoll_data@ == Map::<usize, u64>::empty(),
            n.listen_fd is None,
    {
        NetState { handles: BTreeMap::new(), epoll_data: BTreeMap::new(), listen_fd: None }
    }

    /// Records the data that epoll reports for `fd`.
    pub fn set_epoll_data(&mut self, fd: usize, data: u64)
        ensures
            final(self).epoll_data@ == old(self).epoll_data@.insert(fd, data),
            final(self).handles@ == old(self).handles@,
            final(self).listen_fd == old(self).listen_fd,
    {
        self.epoll_data.insert(fd, data);
    }

    /// Whether `fd` stands for a socket.
    pub fn is_socket_fd(&self, fd: usize) -> (r: bool)
        ensures
            r == self.handles@.contains_key(fd),
    {
        self.handles.contains_key(&fd)
    }
}

impl NetState {
    /// Records that descriptor `fd` stands for socket `handle`.
    pub fn add_fd_handle(&mut self, fd: usize, handle: usize)
        ensures
            final(self).handles@ == old(self).handles@.insert(fd, handle),
            final(self).epoll_data@ == old(self).epoll_data@,
            final(self).listen_fd == old(self).listen_fd,
    {
        self.handles.insert(fd, handle);
    }

    /// Whether listening on `fd` needs a new listening socket: it does
    /// unless `fd` is the listening descriptor already.
    pub fn listen_needs_socket(&self, fd: usize) -> (r: bool)
        ensures
            r == (self.listen_fd != Some(fd)),
    {
        match self.listen_fd {
            Some(l) => l != fd,
            None => true,
        }
    }

    /// Makes `fd` the listening descriptor, backed by the listening socket
    /// `created` that the network stack made for it (`None` when it could
    /// not make one, and nothing changes). Nothing changes either when `fd`
    /// listens already.
    pub fn bind_listen_fd(&mut self, fd: usize, created: Option<usize>)
        ensures
            old(self).listen_fd == Some(fd) || created is None ==> *final(self) == *old(self),
            old(self).listen_fd != Some(fd) && created is Some ==> {
                &&& final(self).handles@ == old(self).handles@.insert(fd, created->0)
                &&& final(self).listen_fd == Some(fd)
                &&& final(self).epoll_data@ == old(self).epoll_data@
            },
    {
        if !self.listen_needs_socket(fd) {
            return;
        }
        if let Some(h) = created {
            self.handles.insert(fd, h);
            self.listen_fd = Some(fd);
        }
    }

    /// Forgets descriptor `fd`: its epoll data, and, unless it is the
    /// listening descriptor, its socket, which is returned for the network
    /// stack to drop.
    pub fn close_fd(&mut self, fd: usize) -> (r: Option<usize>)
        ensures
            final(self).epoll_data@ == old(self).epoll_data@.remove(fd),
            final(self).listen_fd == old(self).listen_fd,
            old(self).listen_fd == Some(fd) ==> r is None && final(self).handles@ == old(self).handles@,
            old(self).listen_fd != Some(fd) ==> {
                &&& final(self).handles@ == old(self).handles@.remove(fd)
                &&& r == if old(self).handles@.contains_key(fd) { Some(old(self).handles@[fd]) } else { None }
            },
    {
        let is_listen = match self.listen_fd {
            Some(l) => l == fd,
            None => false,
        };
        if is_listen {
            self.epoll_data.remove(&fd);
            return None;
        }
        let r = self.handles.remove(&fd);
        self.epoll_data.remove(&fd);
        r
    }

    /// The listening socket behind `fd`, when `fd` is the listening
    /// descriptor.
    pub open spec fn accept_target_spec(&self, fd: usize) -> Option<usize> {
        if self.listen_fd == Some(fd) && self.handles@.contains_key(fd) { Some(self.handles@[fd]) } else { None }
    }

    pub fn accept_target(&self, fd: usize) -> (r: Option<usize>)
        ensures
            r == self.accept_target_spec(fd),
    {
        match self.listen_fd {
            Some(l) => {
                if l != fd {
                    return None;
                }
                match self.handles.get(&l) {
                    Some(h) => Some(*h),
                    None => None,
                }
            },
            None => None,
        }
    }

    /// Puts the new listening socket `new_handle` behind the listening
    /// descriptor and returns the socket it replaces, which now holds the
    /// accepted connection.
    pub fn replace_listen_socket(&mut self, new_handle: usize) -> (r: Option<usize>)
        ensures
            final(self).epoll_data@ == old(self).epoll_data@,
            final(self).listen_fd == old(self).listen_fd,
            old(self).listen_fd is None ==> *final(self) == *old(self) && r is None,
            old(self).listen_fd matches Some(l) ==> {
                &&& final(self).handles@ == old(self).handles@.insert(l, new_handle)
                &&& r == if old(self).handles@.contains_key(l) { Some(old(self).handles@[l]) } else { None }
            },
    {
        match self.listen_fd {
            Some(l) => self.handles.insert(l, new_handle),
            None => None,
        }
    }

    /// The data epoll reports for `fd`: what was set for it, or the
    /// descriptor itself.
    pub fn epoll_data_of(&self, fd: usize) -> (d: u64)
        ensures
            d == if self.epoll_data@.contains_key(fd) { self.epoll_data@[fd] } else { fd as u64 },
    {
        match self.epoll_data.get(&fd) {
            Some(d) => *d,
            None => fd as u64,
        }
    }
}

/// What a receive on a socket returns before any data moves: would block
/// (-11) while the connection is open, end of file (0) once it is closed,
/// and nothing when there is data to take.
pub fn recv_status(can_recv: bool, is_open: bool) -> (r: Option<isize>)
    ensures
        r == if can_recv { None } else if is_open { Some(-11isize) } else { Some(0isize) },
{
    if !can_recv {
        if is_open { Some(-11) } else { Some(0) }
    } else {
        None
    }
}

/// What a send on a socket returns before any data moves: would block
/// (-11) while the connection is open, broken pipe (-32) once it is closed,
/// and nothing when there is room.
pub fn send_status(can_send: bool, is_open: bool) -> (r: Option<isize>)
    ensures
        r == if can_send { None } else if is_open { Some(-11isize) } else { Some(-32isize) },
{
    if !can_send {
        if is_open { Some(-11) } else { Some(-32) }
    } else {
        None
    }
}

/// What the network stack says of one socket.
#[derive(Clone, Copy, Debug)]
pub struct SockStatus {
    pub fd: usize,
    pub can_recv: bool,
    pub is_listening: bool,
    pub is_open: bool,
    pub can_send: bool,
}

/// The epoll events of a socket: readable (1) when it has data or holds
/// an open connection, writable (4) when it has room.
pub open spec fn revents_spec(s: SockStatus) -> u32 {
    (if s.can_recv || (!s.is_listening && s.is_open) { 1u32 } else { 0u32 })
        | (if s.can_send { 4u32 } else { 0u32 })
}

pub fn revents(s: SockStatus) -> (r: u32)
    ensures
        r == revents_spec(s),
{
    let a: u32 = if s.can_recv || (!s.is_listening && s.is_open) { 1 } else { 0 };
    let b: u32 = if s.can_send { 4 } else { 0 };
    a | b
}

/// The events epoll reports, at most `max`, from the sockets `st` taken in
/// order: for each socket with some event, its events and its data.
pub open spec fn epoll_list(data: Map<usize, u64>, st: Seq<SockStatus>, max: nat) -> Seq<(u32, u64)>
    decreases st.len(),
{
    if st.len() == 0 || max == 0 {
        Seq::empty()
    } else {
        let r = revents_spec(st[0]);
        let d = if data.contains_key(st[0].fd) { data[st[0].fd] } else { st[0].fd as u64 };
        if r != 0 {
            seq![(r, d)] + epoll_list(data, st.skip(1), (max - 1) as nat)
        } else {
            epoll_list(data, st.skip(1), max)
        }
    }
}

impl NetState {
    /// The events to report for the sockets `st`, listed in descriptor
    /// order, at most `max`.
    pub fn epoll_events(&self, st: &[SockStatus], max: usize) -> (r: Vec<(u32, u64)>)
        ensures
            r@ == epoll_list(self.epoll_data@, st@, max as nat),
    {
        let mut out: Vec<(u32, u64)> = Vec::new();
        let mut i: usize = 0;
        proof {
            assert(st@.skip(0) =~= st@);
            assert(out@ + epoll_list(self.epoll_data@, st@, max as nat) =~= epoll_list(self.epoll_data@, st@, max as nat));
        }
        while i < st.len()
            invariant
                i <= st@.len(),
                out@.len() <= max,
                out@ + epoll_list(self.epoll_data@, st@.skip(i as int), (max - out@.len()) as nat)
                    == epoll_list(self.epoll_data@, st@, max as nat),
            ensures
                i <= st@.len(),
                out@.len() <= max,
                out@ + epoll_list(self.epoll_data@, st@.skip(i as int), (max - out@.len()) as nat)
                    == epoll_list(self.epoll_data@, st@, max as nat),
                i >= st@.len() || out@.len() >= max,
            decreases st@.len() - i,
        {
            if out.len() >= max {
                break;
            }
            let s = st[i];
            let r = revents(s);
            proof {
                assert(st@.skip(i as int)[0] == s);
                assert(st@.skip(i as int).skip(1) =~= st@.skip(i as int + 1));
            }
            if r != 0 {
                let d = self.epoll_data_of(s.fd);
                let ghost before = out@;
                out.push((r, d));
                proof {
                    assert(out@ + epoll_list(self.epoll_data@, st@.skip(i as int + 1), (max - out@.len()) as nat)
                        =~= before + epoll_list(self.epoll_data@, st@.skip(i as int), (max - before.len()) as nat));
                }
            }
            i = i + 1;
        }
        proof {
            let rest = epoll_list(self.epoll_data@, st@.skip(i as int), (max - out@.len()) as nat);
            if i == st@.len() {
                assert(st@.skip(i as int).len() == 0);
            }
            assert(rest =~= Seq::<(u32, u64)>::empty());
            assert(out@ + rest =~= out@);
        }
        out
    }
}

} // verus!
