use contextstore::error::KVError;
use contextstore::gds::{
    check_transfer, cuda_names, cuda_result, cudart_names, cufile_names, is_available, map_result,
    require_driver, transfer_result, CUipcMemHandle, DropPlan, GdsDriver, GpuBuffer, InitStep,
    Ownership, Release, Transfer,
};
use contextstore::gds_client::{
    check_buffer, device_selected, driver_opened, file_cache_capacity, file_registered,
    number_or_failure, read_offsets, read_result, worker_cudart_names, worker_cufile_names, Client,
};
use contextstore::paths::normalized;

#[test]
fn file_cache_capacity_is_never_zero() {
    let capacity = file_cache_capacity(0usize);
    assert_eq!(capacity, 1);
}

#[test]
fn the_driver_is_available_once_it_is_open() {
    let mut driver = GdsDriver::new();
    assert_eq!(driver.init(), InitStep::Probe);
    driver.note_probe(true);
    assert_eq!(driver.init(), InitStep::Open);
    assert!(!is_available(&driver));
    assert_eq!(
        driver.note_open(3, None).unwrap_err().message(),
        "internal error: CUDA cuInit failed: code=3"
    );
    assert_eq!(
        driver.note_open(0, Some(-7)).unwrap_err().message(),
        "internal error: cuFile cuFileDriverOpen failed: status=-7"
    );
    assert!(!is_available(&driver));
    assert!(driver.note_open(0, Some(0)).is_ok());
    assert!(is_available(&driver) && driver.must_close());
    assert_eq!(driver.init(), InitStep::Finished(true));
    let mut missing = GdsDriver::new();
    missing.note_probe(false);
    assert_eq!(missing.init(), InitStep::Finished(false));
    assert!(!is_available(&missing));
}

#[test]
fn codes_are_explained() {
    assert!(map_result("op", 0).is_ok());
    assert_eq!(
        map_result("op", 5).unwrap_err().message(),
        "internal error: cuFile op failed: status=5"
    );
    assert!(cuda_result("op", 0).is_ok());
    assert_eq!(
        cuda_result("op", 5).unwrap_err().message(),
        "internal error: CUDA op failed: code=5"
    );
    assert_eq!(
        require_driver(false, "GDS not init").unwrap_err().message(),
        "internal error: GDS not init"
    );
    assert!(require_driver(true, "GDS not init").is_ok());
    assert_eq!(cufile_names()[0], "libcufile.so");
    assert_eq!((cudart_names().len(), cuda_names().len()), (4, 3));
    assert_eq!((worker_cufile_names().len(), worker_cudart_names().len()), (5, 4));
}

#[test]
fn handles_have_sixty_four_bytes() {
    let bytes: Vec<u8> = (0..64).collect();
    match CUipcMemHandle::from_bytes(&bytes) {
        Ok(h) => assert_eq!(h.reserved.to_vec(), bytes),
        Err(_) => panic!("the handle is complete"),
    }
    match CUipcMemHandle::from_bytes(&bytes[..63]) {
        Err(KVError::InvalidArgument(e)) => {
            assert_eq!(e, "IPC handle must be 64 bytes, got 63")
        }
        _ => panic!("the handle is short"),
    }
}

#[test]
fn gpu_memory_goes_back_to_where_it_came_from() {
    let mut owned = GpuBuffer::new(0x1000, 64, Ownership::Owned);
    assert_eq!(owned.drop_plan(), DropPlan { deregister: false, release: Release::Free });
    assert!(owned.note_registration(0).is_ok());
    assert_eq!(owned.drop_plan(), DropPlan { deregister: true, release: Release::Free });
    let mut shared = GpuBuffer::new(0x1000, 64, Ownership::IpcImported);
    assert_eq!(
        shared.note_registration(4).unwrap_err().message(),
        "internal error: cuFile cuFileBufRegister failed: status=4"
    );
    assert_eq!(shared.drop_plan().release, Release::CloseIpc);
    shared.note_closed();
    assert_eq!(shared.drop_plan(), DropPlan { deregister: false, release: Release::Nothing });
    assert_eq!((owned.len(), owned.is_empty(), owned.as_ptr()), (64, false, 0x1000));
    assert_eq!((owned.copy_len(10), owned.copy_len(100)), (10, 64));
}

#[test]
fn transfers_stay_inside_the_buffer() {
    assert!(check_transfer(Transfer::Read, 10, 10).is_ok());
    assert_eq!(
        check_transfer(Transfer::Read, 11, 10).unwrap_err().message(),
        "internal error: GpuFileHandle::pread size 11 > buf 10"
    );
    assert_eq!(
        check_transfer(Transfer::Write, 11, 10).unwrap_err().message(),
        "internal error: GpuFileHandle::pwrite size 11 > buf 10"
    );
    assert_eq!(transfer_result(Transfer::Read, 7), Ok(7));
    assert_eq!(
        transfer_result(Transfer::Write, -5).unwrap_err().message(),
        "internal error: cuFile cuFileWrite failed: status=-5"
    );
}

#[test]
fn buffers_get_numbers_from_one_on() {
    let mut client = Client::new(0);
    assert_eq!(client.note_registered(0x10, 100, 0), Ok(1));
    assert_eq!(client.note_registered(0x20, 200, 0), Ok(2));
    assert_eq!(
        client.note_registered(0x30, 1, 8).unwrap_err(),
        "cuFileBufRegister failed: 8"
    );
    assert_eq!(client.read_target(2, 150, 50), Ok(0x20));
    assert_eq!(
        client.read_target(2, 150, 51).unwrap_err(),
        "GDS read exceeds registered buffer"
    );
    assert_eq!(
        client.read_target(2, u64::MAX, 51).unwrap_err(),
        "GDS buffer range overflows usize"
    );
    assert_eq!(client.read_target(9, 0, 1).unwrap_err(), "unknown GDS buffer 9");
    assert_eq!(client.unregister_buffer(1), Some(0x10));
    assert_eq!(client.unregister_buffer(1), None);
    assert_eq!(client.note_registered(0x40, 1, 0), Ok(3));
    let (buffers, _) = client.into_parts();
    assert_eq!(buffers.len(), 2);
}

#[test]
fn the_file_used_least_recently_is_given_back() {
    let mut client = Client::new(2);
    let (a, b, c) = ("/a".to_string(), "/b".to_string(), "/c".to_string());
    assert_eq!(client.file_handle(&a), None);
    assert_eq!(client.note_opened(&a, 1), None);
    assert_eq!(client.note_opened(&b, 2), None);
    assert_eq!(client.file_handle(&a), Some(1));
    assert_eq!(client.note_opened(&c, 3), Some(2));
    assert_eq!(client.file_handle(&b), None);
    assert_eq!(client.file_handle(&a), Some(1));
    let (_, files) = client.into_parts();
    assert_eq!(files.len(), 2);
}

#[test]
fn a_file_is_found_under_every_spelling_of_its_path() {
    let mut client = Client::new(4);
    assert_eq!(client.note_opened("/a/b", 1), None);
    for spelling in ["/a/b", "/a//b", "//a/./b", "/a/b/", "/./a/b/."] {
        assert_eq!(client.file_handle(spelling), Some(1), "{}", spelling);
    }
    for other in ["a/b", "/a/b/c", "/a/../a/b", "./a/b", "/ab", ""] {
        assert_eq!(client.file_handle(other), None, "{}", other);
    }
    assert_eq!(client.note_opened("./x//y/", 2), None);
    assert_eq!(client.file_handle("./x/y"), Some(2));
    assert_eq!(client.file_handle("x/y"), None);
    assert_eq!(normalized("//a/.//b/./c/"), "/a/b/c");
    assert_eq!(normalized("././a"), "./a");
    assert_eq!(normalized("../a"), "../a");
    assert_eq!(normalized("/"), "/");
    assert_eq!(normalized("//./"), "/");
    assert_eq!(normalized("."), ".");
    assert_eq!(normalized(""), "");
    assert_eq!(normalized(".hidden/.."), ".hidden/..");
}

#[test]
fn failures_of_a_worker_are_told() {
    assert_eq!(check_buffer(0, 1).unwrap_err(), "GDS buffer must be non-empty");
    assert_eq!(check_buffer(1, 0).unwrap_err(), "GDS buffer must be non-empty");
    assert!(check_buffer(1, 1).is_ok());
    assert_eq!(device_selected(2, 5).unwrap_err(), "cudaSetDevice(2) failed: 5");
    assert_eq!(driver_opened(-1).unwrap_err(), "cuFileDriverOpen failed: -1");
    assert_eq!(
        file_registered("/f", 5).unwrap_err(),
        "cuFileHandleRegister /f failed: 5"
    );
    assert_eq!(read_offsets(1, 2), Ok((1, 2)));
    assert_eq!(read_offsets(u64::MAX, 2).unwrap_err(), "file offset too large");
    assert_eq!(read_offsets(1, u64::MAX).unwrap_err(), "buffer offset too large");
    assert_eq!(read_result(5), Ok(5));
    assert_eq!(read_result(-5).unwrap_err(), "cuFileRead failed: -5");
    assert_eq!(number_or_failure(Some(5)), 5);
    assert_eq!(number_or_failure(Some(u64::MAX)), -1);
    assert_eq!(number_or_failure(None), -1);
}
