//! Where nodes come from.

use vstd::prelude::*;

use crate::config::{SileroVADConfig, SpeculativeVADCoordinatorConfig};
use crate::coordinator;
use crate::coordinator::{CoordinatorModel, SpeculativeVADCoordinator};
use crate::vad::{SileroVADNode, VadModel};

verus! {

/// Makes detectors.
#[derive(Default)]
pub struct SileroVADNodeFactory;

impl SileroVADNodeFactory {
    pub fn node_type(&self) -> (s: &'static str)
        ensures
            s@ == "SileroVADNode"@,
    {
        "SileroVADNode"
    }

    /// A detector with the settings that could be read; with the default ones, if none
    /// could.
    pub fn create(&self, params: Option<SileroVADConfig>) -> (node: SileroVADNode)
        ensures
            node.wf(),
            match params {
                Some(config) => node.settings() == config,
                None => node.settings().is_default(),
            },
            node.sessions() == Map::<Seq<char>, VadModel>::empty(),
    {
        let config: SileroVADConfig = match params {
            Some(config) => config,
            None => SileroVADConfig::default(),
        };
        SileroVADNode::new(config)
    }
}

/// Makes coordinators.
#[derive(Default)]
pub struct SpeculativeVADCoordinatorFactory;

impl SpeculativeVADCoordinatorFactory {
    pub fn node_type(&self) -> (s: &'static str)
        ensures
            s@ == "SpeculativeVADCoordinator"@,
    {
        "SpeculativeVADCoordinator"
    }

    /// A coordinator with the settings that could be read; with the default ones, if none
    /// could.
    pub fn create(&self, params: Option<SpeculativeVADCoordinatorConfig>) -> (c:
        SpeculativeVADCoordinator)
        ensures
            c.wf(),
            match params {
                Some(config) => c.settings() == config,
                None => c.settings().is_default(),
            },
            coordinator::is_detector_config(c.settings(), c.detector().settings()),
            c.detector().sessions() == Map::<Seq<char>, VadModel>::empty(),
            c.ledger() == Map::<Seq<char>, CoordinatorModel>::empty(),
    {
        let config: SpeculativeVADCoordinatorConfig = match params {
            Some(config) => config,
            None => SpeculativeVADCoordinatorConfig::default(),
        };
        SpeculativeVADCoordinator::with_config(config)
    }
}

} // verus!
