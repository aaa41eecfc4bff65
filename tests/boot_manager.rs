use fullsystemimage::boot_manager::{
    operation_request, CompareKernels, CompareKernelsOption, ConfigContents, DefaultOptions,
    DeployConfig, KernelCommand, KernelCommandsArgs, OperationRequest,
};

fn config(hard_link_default: bool) -> ConfigContents {
    ConfigContents {
        boot_kernel: "/boot/usb/vmlinuz".to_string(),
        upstream_kernel: "/boot/vmlinuz-linux".to_string(),
        mkinitcpio_preset: "usb".to_string(),
        default_options: DefaultOptions { hard_link: hard_link_default, compare_kernels: CompareKernels::Full },
        deploy_boot_files: DeployConfig {
            destination_block_device: Some("/dev/sdb1".to_string()),
            mount_point: "/mnt/usb".to_string(),
            source_directory: "/boot/usb-boot".to_string(),
            destination_directory: "boot".to_string(),
        },
    }
}

fn flags(hard_link: bool, no_hard_link: bool, compare: Option<&str>) -> KernelCommandsArgs {
    KernelCommandsArgs { hard_link, no_hard_link, compare_kernels: compare.map(|s| s.to_string()) }
}

#[test]
fn default_options_default() {
    let d = DefaultOptions::default();
    assert!(!d.hard_link);
    assert_eq!(d.compare_kernels, CompareKernels::False);
}

#[test]
fn change_kernel_uses_given_file_and_defaults() {
    let r = operation_request(
        KernelCommand::ChangeKernel { shared_args: flags(false, false, None), file: "/tmp/k".to_string() },
        config(true),
    );
    let OperationRequest::ChangeKernel(ck) = r else { panic!("expected a kernel change") };
    assert_eq!(ck.source, "/tmp/k");
    assert_eq!(ck.destination, "/boot/usb/vmlinuz");
    assert_eq!(ck.mkinitcpio_preset, "usb");
    assert!(ck.hard_link);
    assert_eq!(ck.compare_kernels, Some(CompareKernelsOption::Full));
}

#[test]
fn update_kernel_uses_upstream_and_flags_override() {
    let r = operation_request(
        KernelCommand::UpdateKernel { shared_args: flags(false, true, Some("false")) },
        config(true),
    );
    let OperationRequest::ChangeKernel(ck) = r else { panic!("expected a kernel change") };
    assert_eq!(ck.source, "/boot/vmlinuz-linux");
    assert!(!ck.hard_link);
    assert_eq!(ck.compare_kernels, None);
    let r2 = operation_request(
        KernelCommand::UpdateKernel { shared_args: flags(true, false, Some("efficient")) },
        config(false),
    );
    let OperationRequest::ChangeKernel(ck2) = r2 else { panic!("expected a kernel change") };
    assert!(ck2.hard_link);
    assert_eq!(ck2.compare_kernels, Some(CompareKernelsOption::Efficient));
}

#[test]
fn deploy_takes_places_from_config() {
    let r = operation_request(KernelCommand::DeployBootFiles, config(false));
    let OperationRequest::DeployBootFiles(d) = r else { panic!("expected a deployment") };
    assert_eq!(d.destination_block_device, Some("/dev/sdb1".to_string()));
    assert_eq!(d.block_device_mount_point, "/mnt/usb");
    assert_eq!(d.boot_files_source, "/boot/usb-boot");
    assert_eq!(d.boot_files_destination, "boot");
}

use fullsystemimage::boot_manager::combine_deploy_outcomes;

#[test]
fn deploy_outcomes_combine() {
    assert_eq!(combine_deploy_outcomes::<&str>(Ok(0), Ok(0)), Ok(0));
    assert_eq!(combine_deploy_outcomes::<&str>(Ok(0), Ok(1)), Ok(1));
    assert_eq!(combine_deploy_outcomes::<&str>(Ok(2), Ok(1)), Ok(2));
    let e = combine_deploy_outcomes::<&str>(Err("mount"), Ok(0)).unwrap_err();
    assert_eq!(e.get(), &["mount"]);
    let e2 = combine_deploy_outcomes::<&str>(Err("copy"), Err("umount")).unwrap_err();
    assert_eq!(e2.get(), &["copy", "umount"]);
    let e3 = combine_deploy_outcomes::<&str>(Ok(0), Err("umount")).unwrap_err();
    assert_eq!(e3.get(), &["umount"]);
}
