use embedded_async::job::{Job, JobServer};

struct Count(u32);

impl Job for Count {
    type Result = u32;

    fn poll(&mut self) -> Option<u32> {
        Some(self.0)
    }
}

#[test]
fn jobs_are_posted_until_full() {
    let mut server: JobServer<Count, 2> = JobServer::new();
    assert!(server.try_post(Count(1)).is_ok());
    assert!(server.try_post(Count(2)).is_ok());
    match server.try_post(Count(3)) {
        Err(job) => assert_eq!(job.0, 3),
        Ok(()) => panic!("the server is full"),
    }
}
