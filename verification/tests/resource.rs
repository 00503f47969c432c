use eks::k8s::resource::{heading, is_extended};

#[test]
fn a_device_plugin_resource_is_extended() {
    assert!(is_extended("nvidia.com/gpu"));
    assert!(is_extended("amd.com/gpu"));
    assert!(is_extended("smarter-devices/fuse"));
    assert!(is_extended("example.com/dongle"));
}

#[test]
fn the_resources_kubernetes_defines_itself_are_not_extended() {
    // Each of these turns up in a real node's capacity map, and none of
    // them belongs in a column headed by a vendor domain.
    for name in [
        "cpu",
        "memory",
        "pods",
        "ephemeral-storage",
        "hugepages-2Mi",
        "hugepages-1Gi",
        "attachable-volumes-aws-ebs",
    ] {
        assert!(!is_extended(name), "{name}");
    }
}

#[test]
fn the_kubernetes_domain_itself_is_never_extended() {
    // Reserved by Kubernetes, so anything under it is a resource the tool
    // should learn about deliberately rather than render as a device.
    assert!(!is_extended("kubernetes.io/something"));
    assert!(!is_extended("storage.kubernetes.io/thing"));
    // A domain that merely *ends* in the same letters is somebody else's.
    assert!(is_extended("notkubernetes.io/gpu"));
}

#[test]
fn a_name_that_is_not_qualified_at_all_is_not_extended() {
    assert!(!is_extended(""));
    assert!(!is_extended("/"));
    assert!(!is_extended("gpu/"));
    // A leading slash leaves an empty domain, which is not Kubernetes', so
    // the name qualifies — nonsense in, nonsense out, but never a panic.
    assert!(is_extended("/gpu"));
}

#[test]
fn a_heading_is_the_resource_name_shouted() {
    assert_eq!(heading("nvidia.com/gpu"), "NVIDIA.COM/GPU");
    assert_eq!(heading("smarter-devices/fuse"), "SMARTER-DEVICES/FUSE");
    assert_eq!(heading(""), "");
}
