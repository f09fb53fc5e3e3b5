//! The registry: the one cache of a process, with its configuration.
use vstd::prelude::*;
use crate::cache::{
    device_index, inject_view, vendor_specs, scan_sorted, specs_loaded, loaded_views, spec_views, unresolved, view_applicable, Cache,
    CacheError, InjectError, ScannedFile, WithAutoRefresh,
};
use crate::container_edits::edits_view;
use crate::runtime::{applied, HostProbe, RuntimeConfig};
use crate::specs;
use crate::spec::{Device, Spec};
use crate::textorder::{sorted_insert, strictly_sorted, text_views};

verus! {

/// The registry of specification files and devices of a host.
pub struct Registry {
    pub cache: Cache,
}

impl Registry {
    pub open spec fn wf(&self) -> bool {
        self.cache.wf()
    }

    /// A registry over `spec_dirs`, highest priority first, not yet refreshed.
    pub fn new(spec_dirs: Vec<String>) -> (r: Registry)
        ensures
            r.wf(),
            r.cache.spec_dirs@ == spec_dirs@,
            r.cache.specs@.len() == 0,
    {
        Registry { cache: Cache::new(spec_dirs) }
    }

    /// Turns automatic refresh on or off.
    pub fn configure(&mut self, option: WithAutoRefresh)
        requires
            old(self).wf(),
        ensures
            final(self).wf(),
            final(self).cache.auto_refresh == option.0,
            final(self).cache.specs == old(self).cache.specs,
    {
        self.cache.configure(option);
    }

    /// Refreshes the cache from `scan` (see `Cache::refresh`).
    pub fn refresh(&mut self, scan: Vec<ScannedFile>) -> (r: Result<(), usize>)
        requires
            scan_sorted(scan@),
        ensures
            specs_loaded(final(self).cache.specs@, scan@),
            final(self).wf(),
            spec_views(final(self).cache.specs@) == loaded_views(scan@),
            final(self).cache.device_map() == device_index(loaded_views(scan@)),
            r is Ok <==> final(self).cache.errors@.len() == 0,
    {
        self.cache.refresh(scan)
    }

    /// What went wrong during the last refresh, file by file.
    pub fn get_errors(&self) -> (r: &Vec<(String, CacheError)>)
        ensures
            r == &self.cache.errors,
    {
        self.cache.get_errors()
    }

    /// The specification directories, in scan order.
    pub fn get_spec_directories(&self) -> (r: &Vec<String>)
        ensures
            r == &self.cache.spec_dirs,
    {
        &self.cache.spec_dirs
    }

    /// The device with the qualified name `name`, if any.
    pub fn get_device(&self, name: &str) -> (r: Option<&Device>)
        requires
            self.wf(),
        ensures
            r is Some <==> self.cache.device_map().contains_key(name@),
    {
        self.cache.get_device(name)
    }

    /// The qualified names of all devices, sorted.
    pub fn list_devices(&self) -> (r: Vec<String>)
        requires
            self.wf(),
        ensures
            strictly_sorted(text_views(r@)),
            forall|k: Seq<char>| text_views(r@).contains(k) <==> self.cache.device_map().contains_key(k),
    {
        self.cache.list_devices()
    }

    /// The vendors of all loaded files, sorted.
    pub fn list_vendors(&self) -> (r: Vec<String>)
        ensures
            strictly_sorted(text_views(r@)),
            forall|k: Seq<char>| text_views(r@).contains(k) <==> exists|i: int| 0 <= i < self.cache.specs@.len() && (#[trigger] self.cache.specs@[i]).vendor@ == k,
    {
        self.cache.list_vendors()
    }

    /// The device classes of all loaded files, sorted.
    pub fn list_classes(&self) -> (r: Vec<String>)
        ensures
            strictly_sorted(text_views(r@)),
            forall|k: Seq<char>| text_views(r@).contains(k) <==> exists|i: int| 0 <= i < self.cache.specs@.len() && (#[trigger] self.cache.specs@[i]).class@ == k,
    {
        let specs = &self.cache.specs;
        let mut out: Vec<String> = Vec::new();
        let mut i: usize = 0;
        while i < specs.len()
            invariant
                0 <= i <= specs@.len(),
                strictly_sorted(text_views(out@)),
                forall|k: Seq<char>| text_views(out@).contains(k) <==> exists|j: int| 0 <= j < i && (#[trigger] specs@[j]).class@ == k,
            decreases specs@.len() - i,
        {
            let ghost before = text_views(out@);
            sorted_insert(&mut out, specs[i].class.clone());
            assert forall|k: Seq<char>| text_views(out@).contains(k) <==> exists|j: int| 0 <= j < i + 1 && (#[trigger] specs@[j]).class@ == k by {
                if exists|j: int| 0 <= j < i + 1 && (#[trigger] specs@[j]).class@ == k {
                    let j = choose|j: int| 0 <= j < i + 1 && (#[trigger] specs@[j]).class@ == k;
                    if j < i {
                        assert(before.contains(k));
                    }
                }
            }
            i = i + 1;
        }
        out
    }

    /// The loaded files of `vendor`, in scan order.
    pub fn get_vendor_specs(&self, vendor: &str) -> (r: Vec<&Spec>)
        ensures
            r@.len() == vendor_specs(self.cache.specs@, vendor@).len(),
            forall|i: int| 0 <= i < r@.len() ==> *(#[trigger] r@[i]) == vendor_specs(self.cache.specs@, vendor@)[i],
    {
        self.cache.get_vendor_specs(vendor)
    }

    /// Injects devices into a container's configuration (see `Cache::inject_devices`).
    pub fn inject_devices(&self, target: &mut RuntimeConfig, devices: Vec<String>, probes: &Vec<HostProbe>) -> (r: Result<(), InjectError>)
        requires
            self.wf(),
        ensures
            unresolved(self.cache.device_map(), text_views(devices@)).len() > 0 ==> r is Err && r->Err_0 is Unresolved
                && text_views(r->Err_0->Unresolved_0@) == unresolved(self.cache.device_map(), text_views(devices@)),
            unresolved(self.cache.device_map(), text_views(devices@)).len() == 0 ==> (r is Ok <==> view_applicable(
                inject_view(self.cache.specs@, self.cache.device_map(), text_views(devices@)).0,
                probes@,
            )),
            r is Err ==> *final(target) == *old(target),
            r is Ok ==> exists|e: specs::ContainerEdits|
                edits_view(e) == inject_view(self.cache.specs@, self.cache.device_map(), text_views(devices@)).0
                    && #[trigger] applied(*old(target), e, probes@, *final(target)),
    {
        self.cache.inject_devices(target, devices, probes)
    }
}

} // verus!
