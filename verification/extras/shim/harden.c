/* The shim that `envvault run --harden` and `envvault dir run --harden` preload.
 *
 * Before the program's main() it marks the process non-dumpable, reports "R" on
 * ENVVAULT_READY_FD and, unless ENVVAULT_NODUMP is set, reads KEY=VALUE pairs,
 * each ended by a zero byte, from ENVVAULT_SECRET_FD into the environment.
 *
 * Build and install:
 *   cc -shared -fPIC -O2 -fstack-protector-strong -fno-strict-aliasing \
 *      -D_FORTIFY_SOURCE=2 -o harden.so harden.c
 *   install -D -m 0755 harden.so /usr/lib/envvault/harden.so
 */
#define _GNU_SOURCE
#include <errno.h>
#include <stdlib.h>
#include <string.h>
#include <sys/prctl.h>
#include <unistd.h>

static int fd_from(const char *name)
{
    const char *text = getenv(name);
    char *end;
    long fd;

    if (text == NULL || *text == '\0')
        return -1;
    fd = strtol(text, &end, 10);
    return *end == '\0' && fd >= 0 && fd <= 1 << 20 ? (int)fd : -1;
}

static void take_secrets(int fd)
{
    size_t size = 4096, len = 0, i = 0;
    char *buf = malloc(size);

    if (buf == NULL)
        _exit(127);
    for (;;) {
        ssize_t n;

        if (len == size) {
            char *bigger = malloc(size * 2);

            if (bigger == NULL)
                _exit(127);
            memcpy(bigger, buf, len);
            explicit_bzero(buf, size);
            free(buf);
            buf = bigger;
            size *= 2;
        }
        n = read(fd, buf + len, size - len);
        if (n < 0 && errno == EINTR)
            continue;
        if (n < 0)
            _exit(127);
        if (n == 0)
            break;
        len += (size_t)n;
    }
    while (i < len) {
        char *entry = buf + i;
        size_t entlen = strnlen(entry, len - i);
        char *eq = memchr(entry, '=', entlen);

        if (entlen == len - i)
            break; /* not ended: cut off */
        if (eq != NULL) {
            *eq = '\0';
            setenv(entry, eq + 1, 1);
        }
        i += entlen + 1;
    }
    explicit_bzero(buf, size);
    free(buf);
}

__attribute__((constructor)) static void harden(void)
{
    int ready = fd_from("ENVVAULT_READY_FD");
    int secret = fd_from("ENVVAULT_SECRET_FD");
    int only_nodump = getenv("ENVVAULT_NODUMP") != NULL;

    if (ready < 0)
        return;
    if (prctl(PR_SET_DUMPABLE, 0) != 0)
        _exit(127);
    unsetenv("LD_PRELOAD");
    unsetenv("ENVVAULT_READY_FD");
    unsetenv("ENVVAULT_SECRET_FD");
    unsetenv("ENVVAULT_NODUMP");
    while (write(ready, "R", 1) < 0 && errno == EINTR)
        ;
    close(ready);
    if (!only_nodump && secret >= 0) {
        take_secrets(secret);
        close(secret);
    }
}
