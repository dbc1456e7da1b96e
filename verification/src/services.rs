//! Service definitions: what a supervised process is, how service files
//! are structured, and how definition files merge. Spawning, killing and
//! inspecting live processes is the embedding program's concern.

use vstd::prelude::*;

use crate::smap::map_put_seq;
use crate::smap::SMap;

verus! {

/// Service metadata: extra information not needed to run the service.
pub struct ServiceMetadata {
    /// Service owner.
    pub owner: String,
    /// Source repository URL.
    pub repository: String,
    /// Description.
    pub description: String,
    /// Source license.
    pub license: String,
    /// Build steps run in the service's module directory.
    pub build: Vec<String>,
}

impl Default for ServiceMetadata {
    /// An unknown service under the ISC license.
    fn default() -> (r: Self)
        ensures
            r.owner@.len() == 0,
            r.repository@.len() == 0,
            r.description@ == "Unknown service"@,
            r.license@ == "ISC"@,
            r.build@.len() == 0,
    {
        ServiceMetadata {
            owner: String::new(),
            repository: String::new(),
            description: String::from_str("Unknown service"),
            license: String::from_str("ISC"),
            build: Vec::new(),
        }
    }
}

/// What kind of process a service is.
#[derive(Clone, Copy, Debug, PartialEq, Eq, Structural)]
pub enum ServiceType {
    /// Runs in the background; its process id is tracked.
    Service,
    /// Runs in the foreground; no process id is tracked.
    Application,
}

impl Default for ServiceType {
    fn default() -> (r: Self)
        ensures
            r == ServiceType::Service,
    {
        ServiceType::Service
    }
}

/// A single executable service.
pub struct Service {
    /// What kind of process the service is.
    pub kind: ServiceType,
    /// The command run to start the service.
    pub command: String,
    /// Where the command is run.
    pub working_directory: String,
    /// Environment variables handed to the command.
    pub environment: SMap<String>,
    /// Whether the service restarts automatically when it exits.
    pub restart: bool,
    /// Metadata.
    pub metadata: ServiceMetadata,
}

/// The state of a service.
#[derive(Clone, Copy, Debug, PartialEq, Eq, Structural)]
pub enum ServiceState {
    Running,
    Stopped,
}

impl Default for ServiceState {
    fn default() -> (r: Self)
        ensures
            r == ServiceState::Stopped,
    {
        ServiceState::Stopped
    }
}

/// Configuration for the registry a service server exposes.
pub struct RegistryConfiguration {
    /// Whether the registry is enabled.
    pub enabled: bool,
    /// Registry description, shown on the homepage.
    pub description: String,
    /// Registry name, shown on the homepage.
    pub name: String,
    /// Navigation bar buttons, text and URL each.
    pub nav: Vec<(String, String)>,
}

/// The registry name used when none is configured.
fn registry_default() -> (r: String)
    ensures
        r@ == "Registry"@,
{
    String::from_str("Registry")
}

impl Default for RegistryConfiguration {
    /// Enabled, unnamed beyond the default, with no buttons.
    fn default() -> (r: Self)
        ensures
            r.enabled,
            r.description@.len() == 0,
            r.name@ == "Registry"@,
            r.nav@.len() == 0,
    {
        RegistryConfiguration {
            enabled: true,
            description: String::new(),
            name: registry_default(),
            nav: Vec::new(),
        }
    }
}

/// Configuration for a service server.
pub struct ServerConfiguration {
    /// The port the HTTP server listens on.
    pub port: u16,
    /// The key required to run operations from the HTTP server.
    pub key: String,
    /// Configuration for the registry.
    pub registry: RegistryConfiguration,
}

impl Default for ServerConfiguration {
    /// Port 6374, no key, default registry.
    fn default() -> (r: Self)
        ensures
            r.port == 6374,
            r.key@.len() == 0,
            r.registry.enabled,
    {
        ServerConfiguration { port: 6374, key: String::new(), registry: RegistryConfiguration::default() }
    }
}

/// A services definition file.
pub struct ServicesConfiguration {
    /// The source file location.
    pub source: String,
    /// Inherited service definition files.
    pub inherit: Vec<String>,
    /// Server configuration.
    pub server: ServerConfiguration,
    /// Service definitions, by name.
    pub services: SMap<Service>,
    /// Service states, by name: state and process id.
    pub service_states: SMap<(ServiceState, u32)>,
}

impl Default for ServicesConfiguration {
    /// No services, no states, default server.
    fn default() -> (r: Self)
        ensures
            r.source@.len() == 0,
            r.inherit@.len() == 0,
            r.services@.len() == 0,
            r.service_states@.len() == 0,
            r.services.wf(),
            r.service_states.wf(),
    {
        ServicesConfiguration {
            source: String::new(),
            inherit: Vec::new(),
            server: ServerConfiguration::default(),
            services: SMap::new(),
            service_states: SMap::new(),
        }
    }
}

impl ServicesConfiguration {
    /// Both service tables keyed without duplicates.
    pub open spec fn wf(&self) -> bool {
        self.services.wf() && self.service_states.wf()
    }

    /// Merges the services of another definition file into this one; a
    /// service of the same name is replaced by the other file's.
    pub fn merge_config(&mut self, other: Self)
        requires
            old(self).services.wf(),
        ensures
            final(self).services@ == map_put_seq(old(self).services@, other.services@),
            final(self).services.wf(),
            final(self).service_states@ == old(self).service_states@,
            final(self).server == old(self).server,
            final(self).source == old(self).source,
            final(self).inherit == old(self).inherit,
    {
        let ServicesConfiguration { services, .. } = other;
        self.services.merge_from(services);
    }
}

/// A service server's reply envelope.
pub struct APIReturn<T> {
    /// Whether the operation went through.
    pub ok: bool,
    /// What the operation answered.
    pub data: T,
}

/// Request body for operations on the service index.
pub struct IndexBody {
    /// Auth key.
    pub key: String,
}

/// Request body for operations on a specific service.
pub struct BasicServiceRequestBody {
    /// The name of the service.
    pub service: String,
    /// Auth key.
    pub key: String,
}

/// Request body for installing a service from a registry.
pub struct InstallRequestBody {
    /// The registry to install from.
    pub registry: String,
    /// The name of the service.
    pub service: String,
    /// Auth key.
    pub key: String,
}

/// A sub-action on the service index page.
#[derive(Clone, Copy, Debug, PartialEq, Eq, Structural)]
pub enum IndexSubAction {
    /// Nothing.
    Nothing,
    /// Service listing.
    List,
    /// Service editor.
    Edit,
    /// Service creator.
    Create,
    /// Manage running services.
    Manage,
}

impl Default for IndexSubAction {
    fn default() -> (r: Self)
        ensures
            r == IndexSubAction::Nothing,
    {
        IndexSubAction::Nothing
    }
}

/// Query parameters of the service index page.
pub struct IndexQuery {
    /// The service whose definition is being read.
    pub read: String,
    /// The requested sub-action.
    pub action: IndexSubAction,
}

/// Request body for updating a service.
pub struct RegistryPushRequestBody {
    /// Auth key.
    pub key: String,
    /// The service's definition text.
    pub content: String,
}

/// Request body for deleting a service.
pub struct RegistryDeleteRequestBody {
    /// Auth key.
    pub key: String,
}

} // verus!
