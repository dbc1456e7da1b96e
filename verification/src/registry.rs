//! A simple registry of service definition files, book pages and HTML
//! pages, each addressed by name. The stores are modeled as their
//! contents; the embedding program mirrors them to disk. Every operation
//! states exactly when it answers, when it refuses, and what changes.

use vstd::prelude::*;

use crate::model::LilyError;
use crate::services::RegistryDeleteRequestBody;
use crate::services::RegistryPushRequestBody;
use crate::services::ServerConfiguration;
use crate::smap::map_del;
use crate::smap::map_get;
use crate::smap::map_put;
use crate::smap::SMap;
use crate::text::str_eq;

verus! {

/// What a page listing reports about one page.
pub struct PageMetadata {
    /// The page's size in characters.
    pub size: usize,
}

/// Whether a text parses as a TOML document, as the toml crate decides.
pub uninterp spec fn toml_table_ok(s: Seq<char>) -> bool;

/// Relies on toml's `from_str` for tables: whether the text is a
/// well-formed TOML document.
#[verifier::external_body]
fn parse_toml_ok(s: &str) -> (r: bool)
    ensures
        r == toml_table_ok(s@),
{
    toml::from_str::<toml::Table>(s).is_ok()
}

/// A registry: service definitions, book pages and HTML pages by name.
pub struct Registry {
    /// The server configuration: the enabled switch and the auth key.
    pub config: ServerConfiguration,
    /// Service definition texts, by service name.
    pub services: SMap<String>,
    /// Book pages, by path.
    pub pages: SMap<String>,
    /// HTML pages, by name.
    pub html: SMap<String>,
}

impl Registry {
    /// All three stores keyed without duplicates.
    pub open spec fn wf(&self) -> bool {
        self.services.wf() && self.pages.wf() && self.html.wf()
    }

    /// A fresh, empty registry under the given configuration.
    pub fn new(config: ServerConfiguration) -> (r: Registry)
        ensures
            r.wf(),
            r.services@.len() == 0,
            r.pages@.len() == 0,
            r.html@.len() == 0,
    {
        Registry { config, services: SMap::new(), pages: SMap::new(), html: SMap::new() }
    }

    /// A service's definition text. Refused while the registry is
    /// disabled; not found when no service of the name exists.
    pub fn get(&self, service: String) -> (r: Result<String, LilyError>)
        ensures
            !self.config.registry.enabled ==> (r matches Err(e) && e == LilyError::NotAllowed),
            self.config.registry.enabled ==> match r {
                Ok(t) => map_get(self.services@, service@) matches Option::Some(tv) && t@ == tv@,
                Err(e) => e == LilyError::NotFound && map_get(self.services@, service@) is None,
            },
    {
        if !self.config.registry.enabled {
            return Err(LilyError::NotAllowed);
        }
        match self.services.get(service.as_str()) {
            Option::Some(t) => Ok(crate::garden::clone_string(t)),
            Option::None => Err(LilyError::NotFound),
        }
    }

    /// Stores a service definition. Refused while disabled, with a wrong
    /// key, or for text that is not well-formed TOML.
    pub fn push(&mut self, props: RegistryPushRequestBody, service: String) -> (r: Result<
        (),
        LilyError,
    >)
        requires
            old(self).wf(),
        ensures
            final(self).wf(),
            !old(self).config.registry.enabled ==> (r matches Err(e) && e == LilyError::NotAllowed
                && *final(self) == *old(self)),
            old(self).config.registry.enabled && props.key@ != old(self).config.key@ ==> (r
                matches Err(e) && e == LilyError::NotAllowed && *final(self) == *old(self)),
            old(self).config.registry.enabled && props.key@ == old(self).config.key@
                && !toml_table_ok(props.content@) ==> (r matches Err(e) && e
                == LilyError::ValueError && *final(self) == *old(self)),
            old(self).config.registry.enabled && props.key@ == old(self).config.key@
                && toml_table_ok(props.content@) ==> r is Ok && final(self).services@ == map_put(
                old(self).services@,
                service@,
                props.content,
            ) && final(self).pages@ == old(self).pages@ && final(self).html@ == old(self).html@,
    {
        if !self.config.registry.enabled {
            return Err(LilyError::NotAllowed);
        }
        if !str_eq(props.key.as_str(), self.config.key.as_str()) {
            return Err(LilyError::NotAllowed);
        }
        if !parse_toml_ok(props.content.as_str()) {
            return Err(LilyError::ValueError);
        }
        self.services.insert(service, props.content);
        Ok(())
    }

    /// Removes a service definition. Refused while disabled or with a
    /// wrong key.
    pub fn delete(&mut self, props: RegistryDeleteRequestBody, service: String) -> (r: Result<
        (),
        LilyError,
    >)
        requires
            old(self).wf(),
        ensures
            final(self).wf(),
            !old(self).config.registry.enabled ==> (r matches Err(e) && e == LilyError::NotAllowed
                && *final(self) == *old(self)),
            old(self).config.registry.enabled && props.key@ != old(self).config.key@ ==> (r
                matches Err(e) && e == LilyError::NotAllowed && *final(self) == *old(self)),
            old(self).config.registry.enabled && props.key@ == old(self).config.key@ ==> r is Ok
                && final(self).services@ == map_del(old(self).services@, service@) && map_get(
                final(self).services@,
                service@,
            ) is None && final(self).pages@ == old(self).pages@ && final(self).html@ == old(
                self,
            ).html@,
    {
        if !self.config.registry.enabled {
            return Err(LilyError::NotAllowed);
        }
        if !str_eq(props.key.as_str(), self.config.key.as_str()) {
            return Err(LilyError::NotAllowed);
        }
        proof {
            crate::smap::lemma_map_get_del(self.services@, service@, service@);
        }
        self.services.remove(service.as_str());
        Ok(())
    }

    /// A page's listing data. Refused while disabled; not found when no
    /// page of the path exists.
    pub fn get_page_metadata(&self, path: &String) -> (r: Result<PageMetadata, LilyError>)
        ensures
            !self.config.registry.enabled ==> (r matches Err(e) && e == LilyError::NotAllowed),
            self.config.registry.enabled ==> match r {
                Ok(m) => map_get(self.pages@, path@) matches Option::Some(t) && m.size == t@.len(),
                Err(e) => e == LilyError::NotFound && map_get(self.pages@, path@) is None,
            },
    {
        if !self.config.registry.enabled {
            return Err(LilyError::NotAllowed);
        }
        match self.pages.get(path.as_str()) {
            Option::Some(t) => Ok(PageMetadata { size: t.as_str().unicode_len() }),
            Option::None => Err(LilyError::NotFound),
        }
    }

    /// A page's text. Refused while disabled; not found when no page of
    /// the path exists.
    pub fn get_page(&self, path: String) -> (r: Result<String, LilyError>)
        ensures
            !self.config.registry.enabled ==> (r matches Err(e) && e == LilyError::NotAllowed),
            self.config.registry.enabled ==> match r {
                Ok(t) => map_get(self.pages@, path@) matches Option::Some(tv) && t@ == tv@,
                Err(e) => e == LilyError::NotFound && map_get(self.pages@, path@) is None,
            },
    {
        if !self.config.registry.enabled {
            return Err(LilyError::NotAllowed);
        }
        match self.pages.get(path.as_str()) {
            Option::Some(t) => Ok(crate::garden::clone_string(t)),
            Option::None => Err(LilyError::NotFound),
        }
    }

    /// Stores a page. Refused while disabled or with a wrong key.
    pub fn push_page(&mut self, props: RegistryPushRequestBody, path: String) -> (r: Result<
        (),
        LilyError,
    >)
        requires
            old(self).wf(),
        ensures
            final(self).wf(),
            !old(self).config.registry.enabled ==> (r matches Err(e) && e == LilyError::NotAllowed
                && *final(self) == *old(self)),
            old(self).config.registry.enabled && props.key@ != old(self).config.key@ ==> (r
                matches Err(e) && e == LilyError::NotAllowed && *final(self) == *old(self)),
            old(self).config.registry.enabled && props.key@ == old(self).config.key@ ==> r is Ok
                && final(self).pages@ == map_put(old(self).pages@, path@, props.content) && final(self).services@ == old(self).services@ && final(self).html@ == old(self).html@,
    {
        if !self.config.registry.enabled {
            return Err(LilyError::NotAllowed);
        }
        if !str_eq(props.key.as_str(), self.config.key.as_str()) {
            return Err(LilyError::NotAllowed);
        }
        self.pages.insert(path, props.content);
        Ok(())
    }

    /// Removes a page. Refused while disabled or with a wrong key.
    pub fn delete_page(&mut self, props: RegistryDeleteRequestBody, path: String) -> (r: Result<
        (),
        LilyError,
    >)
        requires
            old(self).wf(),
        ensures
            final(self).wf(),
            !old(self).config.registry.enabled ==> (r matches Err(e) && e == LilyError::NotAllowed
                && *final(self) == *old(self)),
            old(self).config.registry.enabled && props.key@ != old(self).config.key@ ==> (r
                matches Err(e) && e == LilyError::NotAllowed && *final(self) == *old(self)),
            old(self).config.registry.enabled && props.key@ == old(self).config.key@ ==> r is Ok
                && final(self).pages@ == map_del(old(self).pages@, path@) && final(self).services@ == old(self).services@ && final(self).html@ == old(self).html@,
    {
        if !self.config.registry.enabled {
            return Err(LilyError::NotAllowed);
        }
        if !str_eq(props.key.as_str(), self.config.key.as_str()) {
            return Err(LilyError::NotAllowed);
        }
        self.pages.remove(path.as_str());
        Ok(())
    }

    /// An HTML page's text, addressed by name: the stored key is the
    /// name with the `.html` ending. Refused while disabled; not found
    /// when no page of the name exists.
    pub fn get_html(&self, path: String) -> (r: Result<String, LilyError>)
        ensures
            !self.config.registry.enabled ==> (r matches Err(e) && e == LilyError::NotAllowed),
            self.config.registry.enabled ==> match r {
                Ok(t) => map_get(self.html@, path@ + ".html"@) matches Option::Some(tv) && t@
                    == tv@,
                Err(e) => e == LilyError::NotFound && map_get(self.html@, path@ + ".html"@)
                    is None,
            },
    {
        if !self.config.registry.enabled {
            return Err(LilyError::NotAllowed);
        }
        proof {
            reveal_strlit(".html");
        }
        let mut key = crate::garden::clone_string(&path);
        key.append(".html");
        proof {
            assert(key@ =~= path@ + ".html"@);
        }
        match self.html.get(key.as_str()) {
            Option::Some(t) => Ok(crate::garden::clone_string(t)),
            Option::None => Err(LilyError::NotFound),
        }
    }
}

} // verus!
