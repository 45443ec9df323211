//! The plugin catalog: builds a plugin from its configuration record,
//! validating the options.

use vstd::prelude::*;
use vstd::string::*;
use crate::errors::GraphError;
use crate::pipeline::Plugin;
use crate::plugins::{
    ArchFilterPlugin, ChannelFilterPlugin, EdgeAddPlugin, EdgeRemovePlugin, NodeRemovePlugin,
    QuayMetadataFetchPlugin, QuayMetadataSettings, ReleaseScrapePlugin, UpstreamFetchPlugin,
    DEFAULT_KEY_PREFIX, validated_prefix,
};
use crate::text::str_eq;

verus! {

/// A plugin's configuration record: its name and the options it may carry.
pub struct PluginConfig {
    pub name: String,
    pub key_prefix: Option<String>,
    pub key_suffix: Option<String>,
    pub default_arch: Option<String>,
    pub upstream: Option<String>,
    pub registry: Option<String>,
    pub repository: Option<String>,
    pub api_base: Option<String>,
    pub api_credentials_path: Option<String>,
    pub label_filter: Option<String>,
    pub manifestref_key: Option<String>,
}

/// The default suffix of the channel list key.
pub const DEFAULT_CHANNEL_SUFFIX: &'static str = "release.channels";

/// The default suffix of the architecture list key.
pub const DEFAULT_ARCH_SUFFIX: &'static str = "release.arch";

/// The architecture assumed when a request names none.
pub const DEFAULT_ARCH: &'static str = "amd64";

/// Whether the record sets an option that the plugin it names does not take.
pub open spec fn foreign_option(cfg: PluginConfig) -> bool {
    let prefix = cfg.key_prefix is Some;
    let suffix = cfg.key_suffix is Some;
    let arch = cfg.default_arch is Some;
    let upstream = cfg.upstream is Some;
    let registry = cfg.registry is Some;
    let repository = cfg.repository is Some;
    let registry_api = cfg.api_base is Some || cfg.api_credentials_path is Some || cfg.label_filter is Some
        || cfg.manifestref_key is Some;
    if cfg.name@ == "node-remove"@ || cfg.name@ == "edge-add"@ || cfg.name@ == "edge-remove"@ {
        suffix || arch || upstream || registry || repository || registry_api
    } else if cfg.name@ == "channel-filter"@ {
        arch || upstream || registry || repository || registry_api
    } else if cfg.name@ == "arch-filter"@ {
        upstream || registry || repository || registry_api
    } else if cfg.name@ == "cincinnati-graph-fetch"@ {
        prefix || suffix || arch || registry || repository || registry_api
    } else if cfg.name@ == "release-scrape"@ {
        prefix || suffix || arch || upstream || registry_api
    } else if cfg.name@ == "quay-metadata"@ {
        prefix || suffix || arch || upstream || registry
    } else {
        false
    }
}

fn foreign_option_exec(cfg: &PluginConfig) -> (r: bool)
    ensures
        r == foreign_option(*cfg),
{
    let prefix = cfg.key_prefix.is_some();
    let suffix = cfg.key_suffix.is_some();
    let arch = cfg.default_arch.is_some();
    let upstream = cfg.upstream.is_some();
    let registry = cfg.registry.is_some();
    let repository = cfg.repository.is_some();
    let registry_api = cfg.api_base.is_some() || cfg.api_credentials_path.is_some()
        || cfg.label_filter.is_some() || cfg.manifestref_key.is_some();
    let name = cfg.name.as_str();
    if str_eq(name, "node-remove") || str_eq(name, "edge-add") || str_eq(name, "edge-remove") {
        suffix || arch || upstream || registry || repository || registry_api
    } else if str_eq(name, "channel-filter") {
        arch || upstream || registry || repository || registry_api
    } else if str_eq(name, "arch-filter") {
        upstream || registry || repository || registry_api
    } else if str_eq(name, "cincinnati-graph-fetch") {
        prefix || suffix || arch || registry || repository || registry_api
    } else if str_eq(name, "release-scrape") {
        prefix || suffix || arch || upstream || registry_api
    } else if str_eq(name, "quay-metadata") {
        prefix || suffix || arch || upstream || registry
    } else {
        false
    }
}

/// The configured prefix, or the default; `None` when it is configured empty.
pub open spec fn prefix_of(p: Option<String>) -> Option<Seq<char>> {
    match p {
        Some(s) => if s@.len() == 0 { None } else { Some(s@) },
        None => Some(DEFAULT_KEY_PREFIX@),
    }
}

/// The configured value, or the default.
pub open spec fn or_default(p: Option<String>, d: Seq<char>) -> Seq<char> {
    match p {
        Some(s) => s@,
        None => d,
    }
}

fn string_or(p: Option<String>, d: &str) -> (r: String)
    ensures
        r@ == or_default(p, d@),
{
    match p {
        Some(s) => s,
        None => String::from_str(d),
    }
}

fn non_empty(p: Option<String>, what: &str) -> (r: Result<String, GraphError>)
    ensures
        p matches Some(s) && s@.len() > 0 ==> (r matches Ok(v) && v@ == p.unwrap()@),
        !(p matches Some(s) && s@.len() > 0) ==> r matches Err(GraphError::InvalidPluginConfig(_)),
{
    match p {
        Some(s) => {
            if s.as_str().is_empty() {
                Err(GraphError::InvalidPluginConfig(String::from_str(what)))
            } else {
                Ok(s)
            }
        },
        None => Err(GraphError::InvalidPluginConfig(String::from_str(what))),
    }
}

/// Builds the plugin a configuration record names. `api_token` is the registry
/// token read from the record's credentials file, if any. Fails with
/// `InvalidPluginConfig` on an unknown name, an option the named plugin does
/// not take, or an empty required option.
pub fn build_plugin(cfg: PluginConfig, api_token: Option<String>) -> (r: Result<Plugin, GraphError>)
    ensures
        foreign_option(cfg) ==> r matches Err(GraphError::InvalidPluginConfig(_)),
        cfg.name@ == "node-remove"@ && !foreign_option(cfg) ==> match prefix_of(cfg.key_prefix) {
            Some(p) => r matches Ok(Plugin::NodeRemove(q)) && q.key_prefix@ == p,
            None => r matches Err(GraphError::InvalidPluginConfig(_)),
        },
        cfg.name@ == "edge-add"@ && !foreign_option(cfg) ==> match prefix_of(cfg.key_prefix) {
            Some(p) => r matches Ok(Plugin::EdgeAdd(q)) && q.key_prefix@ == p,
            None => r matches Err(GraphError::InvalidPluginConfig(_)),
        },
        cfg.name@ == "edge-remove"@ && !foreign_option(cfg) ==> match prefix_of(cfg.key_prefix) {
            Some(p) => r matches Ok(Plugin::EdgeRemove(q)) && q.key_prefix@ == p,
            None => r matches Err(GraphError::InvalidPluginConfig(_)),
        },
        cfg.name@ == "channel-filter"@ && !foreign_option(cfg) ==> match prefix_of(cfg.key_prefix) {
            Some(p) => r matches Ok(Plugin::ChannelFilter(q)) && q.key_prefix@ == p
                && q.key_suffix@ == or_default(cfg.key_suffix, DEFAULT_CHANNEL_SUFFIX@),
            None => r matches Err(GraphError::InvalidPluginConfig(_)),
        },
        cfg.name@ == "arch-filter"@ && !foreign_option(cfg) ==> match prefix_of(cfg.key_prefix) {
            Some(p) => r matches Ok(Plugin::ArchFilter(q)) && q.key_prefix@ == p
                && q.key_suffix@ == or_default(cfg.key_suffix, DEFAULT_ARCH_SUFFIX@)
                && q.default_arch@ == or_default(cfg.default_arch, DEFAULT_ARCH@),
            None => r matches Err(GraphError::InvalidPluginConfig(_)),
        },
        cfg.name@ == "cincinnati-graph-fetch"@ && !foreign_option(cfg) ==> (if cfg.upstream matches Some(u) && u@.len() > 0 {
            r matches Ok(Plugin::UpstreamFetch(q)) && q.upstream@ == cfg.upstream.unwrap()@
        } else {
            r matches Err(GraphError::InvalidPluginConfig(_))
        }),
        cfg.name@ == "release-scrape"@ && !foreign_option(cfg) ==> (if (cfg.registry matches Some(g) && g@.len() > 0)
            && (cfg.repository matches Some(p) && p@.len() > 0) {
            r matches Ok(Plugin::ReleaseScrape(q)) && q.registry@ == cfg.registry.unwrap()@
                && q.repository@ == cfg.repository.unwrap()@
        } else {
            r matches Err(GraphError::InvalidPluginConfig(_))
        }),
        cfg.name@ == "quay-metadata"@ && !foreign_option(cfg) ==> (if or_default(cfg.repository, crate::plugins::DEFAULT_QUAY_REPOSITORY@).len() > 0
            && or_default(cfg.label_filter, crate::plugins::DEFAULT_QUAY_LABEL_FILTER@).len() > 0 {
            r matches Ok(Plugin::QuayMetadata(q)) && q.repo@ == or_default(cfg.repository, crate::plugins::DEFAULT_QUAY_REPOSITORY@)
                && q.label_filter@ == or_default(cfg.label_filter, crate::plugins::DEFAULT_QUAY_LABEL_FILTER@)
                && q.manifestref_key@ == or_default(cfg.manifestref_key, crate::plugins::DEFAULT_QUAY_MANIFESTREF_KEY@)
                && q.api_base@ == or_default(cfg.api_base, crate::plugins::DEFAULT_QUAY_API_BASE@)
                && q.api_token == api_token
        } else {
            r matches Err(GraphError::InvalidPluginConfig(_))
        }),
        !(cfg.name@ == "node-remove"@ || cfg.name@ == "edge-add"@ || cfg.name@ == "edge-remove"@
            || cfg.name@ == "channel-filter"@ || cfg.name@ == "arch-filter"@ || cfg.name@
            == "cincinnati-graph-fetch"@ || cfg.name@ == "release-scrape"@ || cfg.name@
            == "quay-metadata"@) ==> r matches Err(GraphError::InvalidPluginConfig(_)),
{
    let name = cfg.name.as_str();
    proof {
        reveal_strlit("node-remove");
        reveal_strlit("edge-add");
        reveal_strlit("edge-remove");
        reveal_strlit("channel-filter");
        reveal_strlit("arch-filter");
        reveal_strlit("cincinnati-graph-fetch");
        reveal_strlit("release-scrape");
        reveal_strlit("quay-metadata");
        assert("node-remove"@.len() == 11 && "edge-add"@.len() == 8 && "edge-remove"@.len() == 11);
        assert("channel-filter"@.len() == 14 && "arch-filter"@.len() == 11);
        assert("cincinnati-graph-fetch"@.len() == 22 && "release-scrape"@.len() == 14);
        assert("quay-metadata"@.len() == 13);
        assert("node-remove"@[0] != "edge-remove"@[0]);
        assert("node-remove"@[0] != "arch-filter"@[0]);
        assert("edge-remove"@[0] != "arch-filter"@[0]);
        assert("channel-filter"@[0] != "release-scrape"@[0]);
    }
    if foreign_option_exec(&cfg) {
        let mut m = String::from_str("option not taken by plugin '");
        m.append(name);
        m.append("'");
        return Err(GraphError::InvalidPluginConfig(m));
    }
    if str_eq(name, "node-remove") {
        let p = NodeRemovePlugin::deserialize_config(cfg.key_prefix)?;
        Ok(Plugin::NodeRemove(p))
    } else if str_eq(name, "edge-add") {
        let key_prefix = validated_prefix(cfg.key_prefix)?;
        Ok(Plugin::EdgeAdd(EdgeAddPlugin { key_prefix }))
    } else if str_eq(name, "edge-remove") {
        let key_prefix = validated_prefix(cfg.key_prefix)?;
        Ok(Plugin::EdgeRemove(EdgeRemovePlugin { key_prefix }))
    } else if str_eq(name, "channel-filter") {
        let key_prefix = validated_prefix(cfg.key_prefix)?;
        let key_suffix = string_or(cfg.key_suffix, DEFAULT_CHANNEL_SUFFIX);
        Ok(Plugin::ChannelFilter(ChannelFilterPlugin { key_prefix, key_suffix }))
    } else if str_eq(name, "arch-filter") {
        let key_prefix = validated_prefix(cfg.key_prefix)?;
        let key_suffix = string_or(cfg.key_suffix, DEFAULT_ARCH_SUFFIX);
        let default_arch = string_or(cfg.default_arch, DEFAULT_ARCH);
        Ok(Plugin::ArchFilter(ArchFilterPlugin { key_prefix, key_suffix, default_arch }))
    } else if str_eq(name, "cincinnati-graph-fetch") {
        let upstream = non_empty(cfg.upstream, "empty upstream")?;
        Ok(Plugin::UpstreamFetch(UpstreamFetchPlugin { upstream }))
    } else if str_eq(name, "release-scrape") {
        let registry = non_empty(cfg.registry, "empty registry")?;
        let repository = non_empty(cfg.repository, "empty repository")?;
        Ok(Plugin::ReleaseScrape(ReleaseScrapePlugin { registry, repository }))
    } else if str_eq(name, "quay-metadata") {
        let settings = QuayMetadataSettings {
            api_base: string_or(cfg.api_base, crate::plugins::DEFAULT_QUAY_API_BASE),
            api_credentials_path: cfg.api_credentials_path,
            repository: string_or(cfg.repository, crate::plugins::DEFAULT_QUAY_REPOSITORY),
            label_filter: string_or(cfg.label_filter, crate::plugins::DEFAULT_QUAY_LABEL_FILTER),
            manifestref_key: string_or(cfg.manifestref_key, crate::plugins::DEFAULT_QUAY_MANIFESTREF_KEY),
        };
        let settings = QuayMetadataFetchPlugin::deserialize_config(settings)?;
        settings.build_plugin(api_token)
    } else {
        let mut m = String::from_str("unknown plugin '");
        m.append(name);
        m.append("'");
        Err(GraphError::InvalidPluginConfig(m))
    }
}

} // verus!
