use vstd::prelude::*;
use crate::aggregate::AggregateError;
use crate::args::str_equals;

verus! {

/// Whether the boot kernel is compared with its source before the initial
/// ramdisk is regenerated.
#[derive(Clone, Copy, Debug, PartialEq, Eq, Structural)]
pub enum CompareKernels {
    False,
    Full,
    Efficient,
}

/// Defaults that the command line may override.
#[derive(Clone, Copy, Debug, PartialEq, Eq, Structural)]
pub struct DefaultOptions {
    pub hard_link: bool,
    pub compare_kernels: CompareKernels,
}

impl Default for DefaultOptions {
    fn default() -> (r: DefaultOptions)
        ensures
            r == (DefaultOptions { hard_link: false, compare_kernels: CompareKernels::False }),
    {
        DefaultOptions { hard_link: false, compare_kernels: CompareKernels::False }
    }
}

/// Where boot files are deployed, as the configuration file gives it.
#[derive(Clone, Debug)]
pub struct DeployConfig {
    pub destination_block_device: Option<String>,
    pub mount_point: String,
    pub source_directory: String,
    pub destination_directory: String,
}

/// What the configuration file holds.
#[derive(Clone, Debug)]
pub struct ConfigContents {
    pub boot_kernel: String,
    pub upstream_kernel: String,
    pub mkinitcpio_preset: String,
    pub default_options: DefaultOptions,
    pub deploy_boot_files: DeployConfig,
}

/// The flags shared by the kernel commands.
#[derive(Clone, Debug)]
pub struct KernelCommandsArgs {
    pub hard_link: bool,
    pub no_hard_link: bool,
    pub compare_kernels: Option<String>,
}

/// The boot manager's commands.
#[derive(Clone, Debug)]
pub enum KernelCommand {
    /// Install the given kernel file as the boot kernel.
    ChangeKernel { shared_args: KernelCommandsArgs, file: String },
    /// Install the configured upstream kernel as the boot kernel.
    UpdateKernel { shared_args: KernelCommandsArgs },
    /// Copy the boot files to the boot device.
    DeployBootFiles,
}

/// How a new boot kernel is compared with the old one.
#[derive(Clone, Copy, Debug, PartialEq, Eq, Structural)]
pub enum CompareKernelsOption {
    Full,
    Efficient,
}

/// A request to install a kernel file as the boot kernel.
#[derive(Clone, Debug)]
pub struct ChangeKernel {
    pub source: String,
    pub destination: String,
    pub hard_link: bool,
    pub mkinitcpio_preset: String,
    pub compare_kernels: Option<CompareKernelsOption>,
}

/// A request to copy the boot files to the boot device.
#[derive(Clone, Debug)]
pub struct DeployBootFiles {
    /// The block device to mount, if it is not mounted already.
    pub destination_block_device: Option<String>,
    /// Where the block device is, or is to be, mounted.
    pub block_device_mount_point: String,
    /// The directory holding the boot files.
    pub boot_files_source: String,
    /// Where the boot files go, relative to the mount point.
    pub boot_files_destination: String,
}

/// What the user asked for.
#[derive(Clone, Debug)]
pub enum OperationRequest {
    ChangeKernel(ChangeKernel),
    DeployBootFiles(DeployBootFiles),
}

/// The comparison words the command line accepts.
pub open spec fn valid_compare_word(w: Seq<char>) -> bool {
    w == "false"@ || w == "full"@ || w == "efficient"@
}

/// The flags are consistent: not both hard-link flags, and a known
/// comparison word.
pub open spec fn flags_ok(f: KernelCommandsArgs) -> bool {
    &&& !(f.hard_link && f.no_hard_link)
    &&& f.compare_kernels matches Some(w) ==> valid_compare_word(w@)
}

/// How to compare kernels: the command line's word decides, else the
/// configured default.
pub open spec fn compare_choice(word: Option<Seq<char>>, default: CompareKernels) -> Option<CompareKernelsOption> {
    match word {
        Some(w) => if w == "full"@ {
            Some(CompareKernelsOption::Full)
        } else if w == "efficient"@ {
            Some(CompareKernelsOption::Efficient)
        } else {
            None
        },
        None => match default {
            CompareKernels::False => None,
            CompareKernels::Full => Some(CompareKernelsOption::Full),
            CompareKernels::Efficient => Some(CompareKernelsOption::Efficient),
        },
    }
}

pub open spec fn opt_string_view(o: Option<String>) -> Option<Seq<char>> {
    match o {
        Some(s) => Some(s@),
        None => None,
    }
}

fn choose_compare(word: &Option<String>, default: CompareKernels) -> (r: Option<CompareKernelsOption>)
    ensures
        r == compare_choice(opt_string_view(*word), default),
{
    match word {
        Some(w) => {
            if str_equals(w.as_str(), "full") {
                Some(CompareKernelsOption::Full)
            } else if str_equals(w.as_str(), "efficient") {
                Some(CompareKernelsOption::Efficient)
            } else {
                None
            }
        },
        None => match default {
            CompareKernels::False => None,
            CompareKernels::Full => Some(CompareKernelsOption::Full),
            CompareKernels::Efficient => Some(CompareKernelsOption::Efficient),
        },
    }
}

/// Whether to hard link: an explicit flag decides, else the configured default.
pub open spec fn hard_link_choice(flags: KernelCommandsArgs, default_hard_link: bool) -> bool {
    if flags.hard_link || flags.no_hard_link {
        flags.hard_link
    } else {
        default_hard_link
    }
}

/// Decides the request from a parsed command and the configuration. For a
/// kernel command the source is the given file, or the configured upstream
/// kernel; the destination, the preset and the defaults come from the
/// configuration, and the flags override the defaults. Deploying takes its
/// places from the configuration.
pub fn operation_request(command: KernelCommand, config: ConfigContents) -> (r: OperationRequest)
    requires
        match command {
            KernelCommand::ChangeKernel { shared_args, .. } => flags_ok(shared_args),
            KernelCommand::UpdateKernel { shared_args } => flags_ok(shared_args),
            KernelCommand::DeployBootFiles => true,
        },
    ensures
        match command {
            KernelCommand::DeployBootFiles => r matches OperationRequest::DeployBootFiles(d)
                && opt_string_view(d.destination_block_device) == opt_string_view(config.deploy_boot_files.destination_block_device)
                && d.block_device_mount_point@ == config.deploy_boot_files.mount_point@
                && d.boot_files_source@ == config.deploy_boot_files.source_directory@
                && d.boot_files_destination@ == config.deploy_boot_files.destination_directory@,
            KernelCommand::ChangeKernel { shared_args, file } => r matches OperationRequest::ChangeKernel(ck)
                && ck.source@ == file@
                && ck.destination@ == config.boot_kernel@
                && ck.mkinitcpio_preset@ == config.mkinitcpio_preset@
                && ck.hard_link == hard_link_choice(shared_args, config.default_options.hard_link)
                && ck.compare_kernels == compare_choice(opt_string_view(shared_args.compare_kernels), config.default_options.compare_kernels),
            KernelCommand::UpdateKernel { shared_args } => r matches OperationRequest::ChangeKernel(ck)
                && ck.source@ == config.upstream_kernel@
                && ck.destination@ == config.boot_kernel@
                && ck.mkinitcpio_preset@ == config.mkinitcpio_preset@
                && ck.hard_link == hard_link_choice(shared_args, config.default_options.hard_link)
                && ck.compare_kernels == compare_choice(opt_string_view(shared_args.compare_kernels), config.default_options.compare_kernels),
        },
{
    let (flags, source) = match command {
        KernelCommand::ChangeKernel { shared_args, file } => (shared_args, file),
        KernelCommand::UpdateKernel { shared_args } => (shared_args, config.upstream_kernel),
        KernelCommand::DeployBootFiles => {
            let d = config.deploy_boot_files;
            return OperationRequest::DeployBootFiles(DeployBootFiles {
                destination_block_device: d.destination_block_device,
                block_device_mount_point: d.mount_point,
                boot_files_source: d.source_directory,
                boot_files_destination: d.destination_directory,
            });
        },
    };
    let hard_link = if flags.hard_link || flags.no_hard_link {
        flags.hard_link
    } else {
        config.default_options.hard_link
    };
    let compare_kernels = choose_compare(&flags.compare_kernels, config.default_options.compare_kernels);
    OperationRequest::ChangeKernel(ChangeKernel {
        source,
        destination: config.boot_kernel,
        hard_link,
        mkinitcpio_preset: config.mkinitcpio_preset,
        compare_kernels,
    })
}

/// The exit code of a deployment whose main part and clean-up both
/// finished: the main part's code when it failed, else the clean-up's.
pub open spec fn deploy_exit_code(main_code: u8, cleanup_code: u8) -> u8 {
    if main_code == 0 {
        cleanup_code
    } else {
        main_code
    }
}

/// Combines the outcomes of a deployment's main part and of its clean-up:
/// the errors of both, in that order, when either failed unexpectedly; else
/// the exit code.
pub fn combine_deploy_outcomes<E>(main_part: Result<u8, E>, cleanup: Result<u8, E>) -> (r: Result<u8, AggregateError<E>>)
    ensures
        match (main_part, cleanup) {
            (Ok(m), Ok(c)) => r == Ok::<u8, AggregateError<E>>(deploy_exit_code(m, c)),
            (Err(a), Ok(_)) => r matches Err(e) && e@ == seq![a],
            (Ok(_), Err(b)) => r matches Err(e) && e@ == seq![b],
            (Err(a), Err(b)) => r matches Err(e) && e@ == seq![a, b],
        },
{
    let mut errors: Vec<E> = Vec::new();
    let mut codes: (u8, u8) = (0, 0);
    match main_part {
        Ok(m) => {
            codes.0 = m;
        },
        Err(a) => {
            errors.push(a);
        },
    }
    match cleanup {
        Ok(c) => {
            codes.1 = c;
        },
        Err(b) => {
            errors.push(b);
        },
    }
    proof {
        assert(errors@.len() == 1 ==> errors@ =~= seq![errors@[0]]);
        assert(errors@.len() == 2 ==> errors@ =~= seq![errors@[0], errors@[1]]);
    }
    match AggregateError::new(errors) {
        Some(aggregate) => Err(aggregate),
        None => Ok(if codes.0 == 0 { codes.1 } else { codes.0 }),
    }
}

} // verus!
