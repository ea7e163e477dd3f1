//! The MCP server over a knowledge service.
use vstd::prelude::*;

use crate::service::KnowledgeService;

verus! {

/// Serves a knowledge base to MCP clients.
pub struct WikiMcpServer {
    pub service: KnowledgeService,
}

impl WikiMcpServer {
    pub fn new(service: KnowledgeService) -> (r: Self)
        ensures
            r.service == service,
    {
        WikiMcpServer { service }
    }
}

} // verus!
