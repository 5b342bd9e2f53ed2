//! The headless side of an engine.
use vstd::prelude::*;

verus! {

/// The stages that an engine goes through.
#[derive(Debug, Clone, Copy, PartialEq, Eq, Structural)]
pub enum EngineStage {
    Init,
    Running,
    Stopping,
    Stopped,
}

/// The tick rate of a server that was not given one.
pub const DEFAULT_TICK_RATE: usize = 60;

/// A side of the engine that only ticks.
#[derive(Debug, Clone, Copy, PartialEq, Eq, Structural)]
pub struct Server {
    pub tick_rate: usize,
}

impl Server {
    /// The builder of a server.
    pub fn builder() -> (r: ServerBuilder)
        ensures
            r == (ServerBuilder { tick_rate: None }),
    {
        ServerBuilder::new()
    }

    /// What follows a tick: the stage to enter, if any, and whether to go on ticking.
    pub fn after_tick(stage: EngineStage) -> (r: (Option<EngineStage>, bool))
        ensures
            stage == EngineStage::Stopping ==> r == (Some(EngineStage::Stopped), false),
            stage != EngineStage::Stopping ==> r == (None::<EngineStage>, true),
    {
        if stage == EngineStage::Stopping {
            (Some(EngineStage::Stopped), false)
        } else {
            (None, true)
        }
    }
}

/// The options of a server.
#[derive(Debug, Clone, Copy, PartialEq, Eq, Structural)]
pub struct ServerBuilder {
    pub tick_rate: Option<usize>,
}

impl ServerBuilder {
    /// No option is set.
    pub fn new() -> (r: Self)
        ensures
            r == (ServerBuilder { tick_rate: None }),
    {
        ServerBuilder { tick_rate: None }
    }

    /// Sets the ticks per second.
    pub fn tick_rate(self, tick_rate: usize) -> (r: Self)
        ensures
            r == (ServerBuilder { tick_rate: Some(tick_rate) }),
    {
        ServerBuilder { tick_rate: Some(tick_rate) }
    }

    /// The server with these options.
    pub fn build(self) -> (r: Server)
        ensures
            r.tick_rate == (match self.tick_rate {
                Some(tick_rate) => tick_rate,
                None => DEFAULT_TICK_RATE,
            }),
    {
        let tick_rate: usize = match self.tick_rate {
            Some(tick_rate) => tick_rate,
            None => DEFAULT_TICK_RATE,
        };
        Server { tick_rate }
    }
}

} // verus!
