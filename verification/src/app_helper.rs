//! The decisions of the application frame: which services it takes on and
//! when it may stop.

use vstd::prelude::*;

verus! {

/// The life of a service, as far as the frame cares.
#[derive(Debug, Clone, Copy, PartialEq, Eq, Structural)]
pub enum NodeState {
    /// Created, not yet started.
    Idle,
    /// Starting up.
    Start,
    /// Up and running.
    Run,
    /// Shut down for good.
    Closed,
}

/// The application frame: a name and the ids of the services attached to
/// it, in the order in which they were attached.
pub struct App {
    app_name: String,
    services: Vec<u64>,
}

impl App {
    /// The name of the application.
    pub closed spec fn name(&self) -> Seq<char> {
        self.app_name@
    }

    /// The ids of the attached services, oldest first.
    pub closed spec fn services(&self) -> Seq<u64> {
        self.services@
    }

    /// A frame without services.
    pub fn new(app_name: &str) -> (app: App)
        ensures
            app.name() == app_name@,
            app.services().len() == 0,
    {
        App { app_name: app_name.to_owned(), services: Vec::new() }
    }

    /// Adds `id` to `services` unless it is there already; tells whether it
    /// was added.
    pub fn add_service(services: &mut Vec<u64>, id: u64) -> (added: bool)
        ensures
            added == !old(services)@.contains(id),
            final(services)@ == (if added {
                old(services)@.push(id)
            } else {
                old(services)@
            }),
    {
        let mut i: usize = 0;
        while i < services.len()
            invariant
                i <= services@.len(),
                services@ == old(services)@,
                forall|j: int| 0 <= j < i ==> services@[j] != id,
            decreases services@.len() - i,
        {
            if services[i] == id {
                return false;
            }
            i = i + 1;
        }
        services.push(id);
        true
    }

    /// Takes on the service with id `id` unless one with that id is
    /// attached already; tells whether it was taken on.
    pub fn attach(&mut self, id: u64) -> (added: bool)
        ensures
            final(self).name() == old(self).name(),
            added == !old(self).services().contains(id),
            final(self).services() == (if added {
                old(self).services().push(id)
            } else {
                old(self).services()
            }),
    {
        Self::add_service(&mut self.services, id)
    }

    /// Takes on the application's own service; as [`Self::attach`].
    pub fn init(&mut self, id: u64) -> (added: bool)
        ensures
            final(self).name() == old(self).name(),
            added == !old(self).services().contains(id),
            final(self).services() == (if added {
                old(self).services().push(id)
            } else {
                old(self).services()
            }),
    {
        self.attach(id)
    }

    /// Whether the application may stop, given the state of each attached
    /// service: only when all of them are closed.
    pub fn run(&self, states: &Vec<NodeState>) -> (stop: bool)
        ensures
            stop == (forall|i: int| 0 <= i < states@.len() ==> states@[i] == NodeState::Closed),
    {
        let mut i: usize = 0;
        while i < states.len()
            invariant
                i <= states@.len(),
                forall|j: int| 0 <= j < i ==> states@[j] == NodeState::Closed,
            decreases states@.len() - i,
        {
            if states[i] != NodeState::Closed {
                return false;
            }
            i = i + 1;
        }
        true
    }
}

} // verus!
