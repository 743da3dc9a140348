//! What the probes read.

use zerocloud::cli::machine::{choose_backend, choose_card, thread_counts};
use zerocloud::predict::Backend;
use zerocloud::probe::cpu::cpulist_len;
use zerocloud::probe::env::{cpuinfo_reports_hypervisor, describe, linux_virt_of, Virt};
use zerocloud::probe::gpu::{bandwidth_gbs, group, is_integrated, parse_nvidia_smi, parse_profiler, parse_windows};
use zerocloud::probe::gpu::{Gpu, Vendor, UNMATCHED_GBS};
use zerocloud::probe::human;
use zerocloud::probe::memory::meminfo;
use zerocloud::probe::storage::{classify, find_hazards, is_network, is_weight_file, mount_devices, mount_for};
use zerocloud::probe::storage::{BenchTarget, Hazard, Medium};

#[test]
fn a_cloud_vm_is_not_bare_metal() {
    let nitro = "processor\t: 0\nvendor_id\t: GenuineIntel\n                     flags\t\t: fpu vme de pse tsc msr pae mce hypervisor lahf_lm\n";
    assert!(cpuinfo_reports_hypervisor(nitro));
}

#[test]
fn bare_metal_stays_bare_metal() {
    let metal = "processor\t: 0\nvendor_id\t: GenuineIntel\n                     flags\t\t: fpu vme de pse tsc msr pae mce cx8 apic sep mtrr\n";
    assert!(!cpuinfo_reports_hypervisor(metal));
    let named = "model name\t: Hypervisor-Optimised Xeon\nflags\t\t: fpu vme de\n";
    assert!(!cpuinfo_reports_hypervisor(named));
    assert!(!cpuinfo_reports_hypervisor("Features\t: fp asimd hypervisor\n"));
}

    const REAL_M5: &str = "\
Graphics/Displays:

    Apple M5:

      Chipset Model: Apple M5
      Type: GPU
      Bus: Built-In
      Total Number of Cores: 10
      Vendor: Apple (0x106b)
      Metal Support: Metal 4
";

        const PARAVIRTUAL: &str = "\
Graphics/Displays:

    Apple Paravirtual device:

      Chipset Model: Apple Paravirtual device
      Type: GPU
      Bus: Built-In
      Vendor: Apple (0x106b)
      Metal Support: Metal 3
";

        #[test]
    fn a_real_apple_gpu_reports_cores_and_is_usable() {
        let g = parse_profiler(REAL_M5);
        assert_eq!(g.len(), 1);
        assert_eq!(g[0].name, "Apple M5");
        assert_eq!(g[0].vendor, Vendor::Apple);
        assert_eq!(g[0].cores, Some(10));
        assert!(g[0].usable_for_compute());
    }

        #[test]
    fn a_paravirtual_adapter_advertises_metal_but_is_not_usable() {
        let g = parse_profiler(PARAVIRTUAL);
        assert_eq!(g.len(), 1);
        assert_eq!(g[0].vendor, Vendor::Apple, "it does claim to be Apple");
        assert_eq!(g[0].cores, None, "and reports no shader cores");
        assert!(
            !g[0].usable_for_compute(),
            "an adapter with no cores must not select the Metal backend"
        );
    }

        #[test]
    fn empty_output_yields_no_adapters() {
        assert!(parse_profiler("").is_empty());
        assert!(parse_profiler("Graphics/Displays:\n").is_empty());
    }

    #[test]
    fn integrated_classification_handles_the_awkward_names() {
        let gib8 = 8 * (1 << 30);
        assert!(!is_integrated("NVIDIA GeForce RTX 3060", 12 << 30));
        assert!(!is_integrated("AMD Radeon RX 7900 XTX", 24 << 30));
        assert!(is_integrated("AMD Radeon 780M Graphics", 2 << 30));
        assert!(is_integrated("AMD Radeon 890M Graphics", 2 << 30));
        assert!(is_integrated("AMD Radeon Graphics", 512 << 20));
        assert!(!is_integrated("AMD Radeon Graphics", gib8));
        assert!(is_integrated("Intel(R) Arc(TM) Graphics", 0));
        assert!(is_integrated("Intel(R) UHD Graphics 620", 0));
        assert!(!is_integrated("Intel(R) Arc(TM) A770 Graphics", gib8));
        assert!(is_integrated("NVIDIA Tegra Orin (nvgpu)", 0));
        assert!(!is_integrated("NVIDIA RTX A6000", 48 << 30));
    }

    #[test]
    fn an_integrated_gpu_contributes_no_vram() {
        let g = Gpu::new("Intel(R) UHD Graphics 620".into(), 2 << 30, "test");
        assert!(g.integrated);
        assert_eq!(g.vram_bytes, 0);
    }

    #[test]
    fn nvidia_smi_rows_parse_and_identical_cards_group() {
        let out = "12288, NVIDIA GeForce RTX 3060\n12288, NVIDIA GeForce RTX 3060\n";
        let gpus = group(parse_nvidia_smi(out));
        assert_eq!(gpus.len(), 1);
        assert_eq!(gpus[0].count, 2);
        assert_eq!(gpus[0].vram_bytes, 12288 * 1024 * 1024);
        assert_eq!(gpus[0].vendor, Vendor::Nvidia);
        assert!(gpus[0].bw_gbs == 360);
    }

    #[test]
    fn windows_registry_size_beats_the_saturated_adapter_ram() {
        let out = "NVIDIA GeForce RTX 4090|4293918720|25757220864\n\
                   Intel(R) UHD Graphics 770|1073741824|0\n";
        let gpus = parse_windows(out);
        assert_eq!(gpus[0].vram_bytes, 25_757_220_864);
        assert!(!gpus[0].integrated);
        assert!(gpus[1].integrated && gpus[1].vram_bytes == 0);
    }

    #[test]
    fn unknown_cards_get_the_floor_not_a_guess() {
        assert_eq!(bandwidth_gbs("NVIDIA RTX 4000 Ada Generation"), UNMATCHED_GBS);
        assert!(bandwidth_gbs("NVIDIA GeForce RTX 4090") > UNMATCHED_GBS);
    }

#[test]
fn sizes_are_shown_in_binary_units() {
    assert_eq!(human(17_179_869_184), format!("{:.2} GiB", 16.0));
    assert_eq!(human(1 << 30), format!("{:.2} GiB", 1.0));
    assert_eq!(human(5 << 20), format!("{:.0} MiB", 5.0));
}

#[test]
fn a_cpu_list_counts_its_ranges() {
    assert_eq!(cpulist_len("0-3,8,10-11"), 7);
    assert_eq!(cpulist_len(""), 0);
    assert_eq!(cpulist_len("5"), 1);
}

#[test]
fn available_memory_is_read_in_kib() {
    let text = "MemTotal:       16384000 kB\nMemFree:  100 kB\nMemAvailable:    8192000 kB\n";
    assert_eq!(meminfo(text, "MemTotal"), Some(16_384_000 * 1024));
    assert_eq!(meminfo(text, "Nothing"), None);
    let m = zerocloud::probe::memory::from_linux(text, 4096);
    assert_eq!((m.total, m.available, m.page_size, m.unified), (16_384_000 * 1024, 8_192_000 * 1024, 4096, false));
}

#[test]
fn a_ceiling_or_a_guest_is_warned_of() {
    let e = describe("linux".into(), "x86_64".into(), Some(Virt::Container), Some(1 << 30), 8 << 30);
    assert_eq!(e.virt_tag(), "container");
    assert_eq!(e.memory_ceiling, Some(1 << 30));
    assert!(e.warning.is_some());
    let e = describe("linux".into(), "x86_64".into(), None, None, 8 << 30);
    assert_eq!(e.virt_tag(), "none");
    assert!(e.warning.is_none());
    let e = describe("linux".into(), "x86_64".into(), Some(Virt::Hypervisor("KVM".into())), None, 8 << 30);
    assert_eq!(e.virt_tag(), "hypervisor");
    assert!(e.warning.is_some());
    assert!(matches!(linux_virt_of("Linux version 5 microsoft-standard-WSL2", false, true, None), Some(Virt::Wsl2)));
    assert!(matches!(linux_virt_of("Linux", true, true, None), Some(Virt::Container)));
    assert!(linux_virt_of("Linux", false, false, None).is_none());
}

#[test]
fn a_mount_is_the_longest_that_holds_the_path() {
    let mounts = "/dev/sda1 / ext4 rw 0 0\n/dev/nvme0n1p2 /home ext4 rw 0 0\nserver:/x /home/alice/nas nfs4 rw 0 0\n";
    let (mount, fstype, _) = mount_for("/home/alice/models", mounts).unwrap();
    assert_eq!((mount.as_str(), fstype.as_str()), ("/home", "ext4"));
    let (mount, fstype, _) = mount_for("/home/alice/nas/m", mounts).unwrap();
    assert_eq!((mount.as_str(), fstype.as_str()), ("/home/alice/nas", "nfs4"));
    assert!(is_network("nfs4", true));
    assert!(!is_network("ext4", true));
    assert!(matches!(classify(&mount_devices("/home", mounts), &vec![None]), Medium::Nvme));
}

#[test]
fn hazards_are_named_before_a_download() {
    let v = find_hazards("/Users/a/Dropbox/models", Medium::Ssd, "apfs", 1 << 30);
    assert!(v.iter().any(|h| matches!(h, Hazard::CloudSync(_))));
    assert!(v.iter().any(|h| matches!(h, Hazard::LowSpace(n) if *n == 1 << 30)));
    assert!(find_hazards("/srv/models", Medium::Nvme, "ext4", 1 << 40).is_empty());
    for h in v {
        assert!(!h.text().is_empty());
    }
}

#[test]
fn the_largest_weight_file_is_read_for_the_benchmark() {
    let t = BenchTarget::none()
        .with_file("notes.iso", "/d/notes.iso".into(), 9 << 30)
        .with_file("a.gguf", "/d/a.gguf".into(), 2 << 30)
        .with_file("b.gguf", "/d/b.gguf".into(), 4 << 30);
    assert_eq!(t.choose_file(), (Some("/d/b.gguf".to_string()), true));
    let t = BenchTarget::none().with_file("big.iso", "/d/big.iso".into(), 9 << 30);
    assert_eq!(t.choose_file(), (Some("/d/big.iso".to_string()), false));
    let t = BenchTarget::none().with_file("small.gguf", "/d/small.gguf".into(), 1 << 20);
    assert_eq!(t.choose_file(), (None, false));
    assert!(is_weight_file("model.safetensors") && is_weight_file("sha256-abc") && !is_weight_file("x.txt"));
}

#[test]
fn a_device_of_digits_is_its_own_partition() {
    let mounts = "/dev/sda12 / ext4 rw 0 0\n";
    let devices = mount_devices("/", mounts);
    assert!(matches!(&devices[0], zerocloud::probe::storage::DeviceMedium::AskBlockDevice(d) if d == "sda"), "digits are stripped");
    assert!(matches!(classify(&devices, &vec![Some("1".to_string())]), Medium::Rotational));
    assert!(matches!(classify(&devices, &vec![Some("0".to_string())]), Medium::Ssd));
}

fn apple(cores: Option<u32>) -> Gpu {
    let mut g = Gpu::new("Apple M5".into(), 0, "test");
    g.cores = cores;
    g
}

#[test]
fn one_card_decides_the_backend() {
    let cards = vec![
        Gpu::new("NVIDIA GeForce RTX 3060".into(), 12 << 30, "test"),
        Gpu::new("NVIDIA GeForce RTX 4090".into(), 24 << 30, "test"),
        Gpu::new("NVIDIA GeForce GT 1030".into(), 1 << 30, "test"),
    ];
    assert_eq!(choose_card(&cards), Some(1));
    assert_eq!(choose_backend(&cards, true), Backend::Discrete);
    assert_eq!(choose_card(&cards[2..].iter().map(|g| Gpu::new(g.name.clone(), g.vram_bytes, "test")).collect()), None);
    assert_eq!(choose_backend(&vec![apple(Some(10))], true), Backend::Metal);
    assert_eq!(choose_backend(&vec![apple(None)], true), Backend::Cpu);
    assert_eq!(choose_backend(&vec![apple(Some(10))], false), Backend::Cpu);
    assert_eq!(choose_backend(&Vec::new(), true), Backend::Cpu);
}

#[test]
fn thread_counts_are_sorted_and_distinct() {
    assert_eq!(thread_counts(4, 10), vec![1, 2, 4, 10]);
    assert_eq!(thread_counts(2, 2), vec![1, 2]);
    assert_eq!(thread_counts(0, 1), vec![1, 2]);
    assert_eq!(thread_counts(8, 4), vec![1, 2, 4, 8]);
}
