use rtipc::cache::cache_read_attr;
use rtipc::cache::cache_read_type;
use rtipc::cache::get_cache_attr_path;
use rtipc::cache::is_power_of_two;
use rtipc::cache::max_cacheline_size;
use rtipc::cache::read_cache;
use rtipc::cache::Cache;
use rtipc::cache::CacheType;
use rtipc::unix::check_memfd;
use rtipc::unix::fd_link;
use rtipc::unix::into_eventfd;
use rtipc::unix::starts_with;
use rtipc::unix::Descriptor;
use rtipc::RtipcError;

fn data(level: usize, cls: usize) -> Option<Cache> {
    Some(Cache { level, cls, cache_type: CacheType::Data })
}

#[test]
fn cache_attr_path() {
    assert_eq!(
        get_cache_attr_path(0, 2, b"coherency_line_size"),
        b"/sys/devices/system/cpu/cpu0/cache/index2/coherency_line_size".to_vec()
    );
    assert_eq!(
        get_cache_attr_path(127, 10, b"type"),
        b"/sys/devices/system/cpu/cpu127/cache/index10/type".to_vec()
    );
}

#[test]
fn cache_attr_numbers() {
    assert_eq!(cache_read_attr(b"64\n"), Some(64));
    assert_eq!(cache_read_attr(b"64"), Some(64));
    assert_eq!(cache_read_attr(b"0"), Some(0));
    assert_eq!(cache_read_attr(b"007 \t\r\n"), Some(7));
    assert_eq!(cache_read_attr(b""), None);
    assert_eq!(cache_read_attr(b"\n"), None);
    assert_eq!(cache_read_attr(b" 64"), None);
    assert_eq!(cache_read_attr(b"6 4"), None);
    assert_eq!(cache_read_attr(b"64K"), None);
    assert_eq!(cache_read_attr(b"-1"), None);
    assert_eq!(cache_read_attr(usize::MAX.to_string().as_bytes()), Some(usize::MAX));
    assert_eq!(cache_read_attr(b"99999999999999999999999999"), None);
    let mut over = usize::MAX.to_string().into_bytes();
    let last = over.len() - 1;
    over[last] += 1;
    assert_eq!(cache_read_attr(&over), None);
}

#[test]
fn cache_types() {
    assert_eq!(cache_read_type(b"Data\n"), Some(CacheType::Data));
    assert_eq!(cache_read_type(b"Instruction\n"), Some(CacheType::Instruction));
    assert_eq!(cache_read_type(b"Unified"), Some(CacheType::Unified));
    assert_eq!(cache_read_type(b"data\n"), None);
    assert_eq!(cache_read_type(b"Data cache"), None);
    assert_eq!(cache_read_type(b""), None);
}

#[test]
fn cache_descriptions() {
    let cache = read_cache(b"1\n", b"64\n", b"Data\n").unwrap();
    assert_eq!(cache.level, 1);
    assert_eq!(cache.cls, 64);
    assert_eq!(cache.cache_type, CacheType::Data);
    assert!(read_cache(b"one\n", b"64\n", b"Data\n").is_none());
    assert!(read_cache(b"1\n", b"\n", b"Data\n").is_none());
    assert!(read_cache(b"1\n", b"64\n", b"Trace\n").is_none());
}

#[test]
fn powers_of_two() {
    assert!(is_power_of_two(1));
    assert!(is_power_of_two(8));
    assert!(is_power_of_two(0x8000));
    assert!(!is_power_of_two(0));
    assert!(!is_power_of_two(48));
    assert!(!is_power_of_two(usize::MAX));
}

#[test]
fn cache_line_size_of_the_host() {
    // Nothing could be read: the alignment of a double-precision float.
    assert_eq!(max_cacheline_size(&[]), 8);
    assert_eq!(max_cacheline_size(&[None, None, None, None]), 8);
    let caches = [
        data(1, 64),
        Some(Cache { level: 1, cls: 256, cache_type: CacheType::Instruction }),
        Some(Cache { level: 2, cls: 512, cache_type: CacheType::Unified }),
        data(3, 1024),
        None,
        data(2, 128),
        data(1, 32),
    ];
    assert_eq!(max_cacheline_size(&caches), 128);
    // A line size that is no power of two, or that the header cannot
    // carry, does not count.
    assert_eq!(max_cacheline_size(&[data(1, 96), data(1, 16)]), 16);
    assert_eq!(max_cacheline_size(&[data(1, 0x10000), data(2, 0x8000)]), 0x8000);
    assert_eq!(max_cacheline_size(&[data(1, 4)]), 8);
}

#[test]
fn descriptor_link_path() {
    assert_eq!(fd_link(0), b"/proc/self/fd/0".to_vec());
    assert_eq!(fd_link(7), b"/proc/self/fd/7".to_vec());
    assert_eq!(fd_link(1024), b"/proc/self/fd/1024".to_vec());
    assert_eq!(fd_link(u32::MAX), b"/proc/self/fd/4294967295".to_vec());
}

#[test]
fn prefixes() {
    assert!(starts_with(b"abc", b""));
    assert!(starts_with(b"abc", b"ab"));
    assert!(starts_with(b"abc", b"abc"));
    assert!(!starts_with(b"abc", b"abcd"));
    assert!(!starts_with(b"abc", b"b"));
    assert!(!starts_with(b"", b"a"));
}

#[test]
fn descriptor_kinds() {
    let memfd = Descriptor { fd: 5, link: b"/memfd:rtipc (deleted)".to_vec() };
    let eventfd = Descriptor { fd: 6, link: b"anon_inode:[eventfd]".to_vec() };
    let socket = Descriptor { fd: 7, link: b"socket:[12345]".to_vec() };
    let file = Descriptor { fd: 8, link: b"/tmp/memfd:fake".to_vec() };
    let short = Descriptor { fd: 9, link: b"anon_inode:[event".to_vec() };
    assert!(check_memfd(&memfd).is_ok());
    assert!(matches!(check_memfd(&eventfd), Err(RtipcError::InvalidResource)));
    assert!(matches!(check_memfd(&socket), Err(RtipcError::InvalidResource)));
    assert!(matches!(check_memfd(&file), Err(RtipcError::InvalidResource)));
    assert!(matches!(into_eventfd(&eventfd), Ok(6)));
    assert!(matches!(into_eventfd(&memfd), Err(RtipcError::InvalidResource)));
    assert!(matches!(into_eventfd(&socket), Err(RtipcError::InvalidResource)));
    assert!(matches!(into_eventfd(&short), Err(RtipcError::InvalidResource)));
}
